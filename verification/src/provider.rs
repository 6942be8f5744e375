//! Provider protocol: capability declarations, batch answers and their validation, provider
//! selection and the adapter interface the executor drives.

use vstd::prelude::*;

use crate::judgment::{
    result_answers, validate_label, validate_probability, ErrorKind, JudgmentError,
    JudgmentRequest, JudgmentResult, QuestionKind, RequestView,
};
use crate::text::{is_blank_text, push_char, push_str};
use vstd::utf8::encode_utf8;
use vstd::string::*;

verus! {

#[derive(Debug, Clone, Copy, PartialEq, Eq, Hash, Structural)]
pub enum CapabilityStatus {
    Verified,
    Unsupported,
    Unknown,
}

#[derive(Debug, Clone, PartialEq, Eq)]
pub struct ProviderCapabilities {
    pub protocol_version: String,
    pub noul: CapabilityStatus,
    pub choice: CapabilityStatus,
    pub multi_state_batch: CapabilityStatus,
    pub max_batch_judgments: Option<usize>,
    pub max_choices: Option<usize>,
}

impl ProviderCapabilities {
    /// Declared support for one question type.
    pub fn supports(&self, kind: QuestionKind) -> (r: CapabilityStatus)
        ensures
            r == (match kind {
                QuestionKind::Noul => self.noul,
                QuestionKind::Choice => self.choice,
            }),
    {
        match kind {
            QuestionKind::Noul => self.noul,
            QuestionKind::Choice => self.choice,
        }
    }

    /// Cross-state batching is allowed only when it is verified.
    pub fn supports_multi_state_batch(&self) -> (r: bool)
        ensures
            r == (self.multi_state_batch == CapabilityStatus::Verified),
    {
        self.multi_state_batch == CapabilityStatus::Verified
    }
}

#[derive(Debug, Clone, PartialEq, Eq)]
pub struct ProviderUsage {
    pub input_tokens: Option<u64>,
    pub output_tokens: Option<u64>,
}

#[derive(Debug, Clone, PartialEq, Eq)]
pub struct ProviderMetadata {
    pub requested_model: Option<String>,
    pub effective_model: Option<String>,
    pub usage: Option<ProviderUsage>,
    pub inference_time_ms: Option<u64>,
    pub serialization_time_ns: Option<u64>,
    pub external_roundtrip_ns: Option<u64>,
}

impl ProviderMetadata {
    /// Metadata that reports nothing.
    pub fn empty() -> (r: Self)
        ensures
            r.requested_model is None,
            r.effective_model is None,
            r.usage is None,
            r.inference_time_ms is None,
            r.serialization_time_ns is None,
            r.external_roundtrip_ns is None,
    {
        ProviderMetadata {
            requested_model: None,
            effective_model: None,
            usage: None,
            inference_time_ms: None,
            serialization_time_ns: None,
            external_roundtrip_ns: None,
        }
    }
}

impl Default for ProviderMetadata {
    fn default() -> (r: Self)
        ensures
            r.requested_model is None,
            r.effective_model is None,
            r.usage is None,
            r.inference_time_ms is None,
            r.serialization_time_ns is None,
            r.external_roundtrip_ns is None,
    {
        ProviderMetadata::empty()
    }
}

#[derive(Debug, Clone, PartialEq)]
pub struct ProviderAnswer {
    pub request_key: String,
    pub result: JudgmentResult,
}

#[derive(Debug, Clone, PartialEq)]
pub struct ProviderBatchResult {
    pub answers: Vec<ProviderAnswer>,
    pub metadata: ProviderMetadata,
}

/// Keys pairwise distinct.
pub open spec fn keys_distinct(keys: Seq<Seq<char>>) -> bool {
    forall|i: int, j: int| 0 <= i < j < keys.len() ==> keys[i] != keys[j]
}

pub open spec fn request_keys(requests: Seq<JudgmentRequest>) -> Seq<Seq<char>> {
    requests.map_values(|r: JudgmentRequest| r.request_key@)
}

pub open spec fn answer_keys(answers: Seq<ProviderAnswer>) -> Seq<Seq<char>> {
    answers.map_values(|a: ProviderAnswer| a.request_key@)
}

/// Position of the first request with key `key`, if any.
pub open spec fn has_request_key(requests: Seq<JudgmentRequest>, key: Seq<char>) -> bool {
    exists|k: int| 0 <= k < requests.len() && requests[k].request_key@ == key
}

pub open spec fn first_request_with_key(requests: Seq<JudgmentRequest>, key: Seq<char>) -> int {
    choose|k: int|
        0 <= k < requests.len() && requests[k].request_key@ == key && (forall|m: int|
            0 <= m < k ==> requests[m].request_key@ != key)
}

/// Answer `i` is acceptable: its key is new among the answers, names a request, and its
/// result answers that request.
pub open spec fn answer_acceptable(
    requests: Seq<JudgmentRequest>,
    answers: Seq<ProviderAnswer>,
    i: int,
) -> bool {
    &&& !answer_keys(answers).subrange(0, i).contains(answers[i].request_key@)
    &&& has_request_key(requests, answers[i].request_key@)
    &&& result_answers(
        requests[first_request_with_key(requests, answers[i].request_key@)]@,
        answers[i].result,
    )
}

/// A batch response answers every request exactly once, by key, with a valid result.
pub open spec fn batch_valid(requests: Seq<JudgmentRequest>, answers: Seq<ProviderAnswer>) -> bool {
    &&& keys_distinct(request_keys(requests))
    &&& answers.len() == requests.len()
    &&& forall|i: int| 0 <= i < answers.len() ==> answer_acceptable(requests, answers, i)
}

/// The message for a result that does not answer `request`.
pub open spec fn answer_error_text(request: RequestView, result: JudgmentResult) -> Seq<char> {
    match (request.kind, result) {
        (QuestionKind::Noul, JudgmentResult::Noul(p)) => if !crate::serialize::finite_bits(p) {
            "provider returned a non-finite probability"@
        } else {
            "provider returned a probability outside [0,1]"@
        },
        (QuestionKind::Choice, JudgmentResult::Choice(_)) =>
            "provider returned a label outside the candidate set"@,
        _ => "provider batch answer type does not match the request"@,
    }
}

/// The message for the first unacceptable answer `i`.
pub open spec fn answer_failure_text(
    requests: Seq<JudgmentRequest>,
    answers: Seq<ProviderAnswer>,
    i: int,
) -> Seq<char> {
    if answer_keys(answers).subrange(0, i).contains(answers[i].request_key@) {
        "provider batch contains duplicate answer keys"@
    } else if !has_request_key(requests, answers[i].request_key@) {
        "provider batch contains an unknown answer key"@
    } else {
        answer_error_text(
            requests[first_request_with_key(requests, answers[i].request_key@)]@,
            answers[i].result,
        )
    }
}

fn find_key(keys: &Vec<String>, upto: usize, key: &String) -> (r: bool)
    requires
        upto <= keys@.len(),
    ensures
        r == keys.deep_view().subrange(0, upto as int).contains(key@),
{
    let mut i: usize = 0;
    while i < upto
        invariant
            upto <= keys@.len(),
            i <= upto,
            forall|j: int| 0 <= j < i ==> (#[trigger] keys@[j])@ != key@,
        decreases upto - i,
    {
        if keys[i] == *key {
            assert(keys.deep_view().subrange(0, upto as int)[i as int] == key@);
            return true;
        }
        i = i + 1;
    }
    assert(!keys.deep_view().subrange(0, upto as int).contains(key@)) by {
        if keys.deep_view().subrange(0, upto as int).contains(key@) {
            let w = choose|w: int|
                0 <= w < upto && keys.deep_view().subrange(0, upto as int)[w] == key@;
            assert(keys@[w]@ != key@);
        }
    }
    false
}

/// Index of the first request with the given key, if any.
fn find_request(requests: &[JudgmentRequest], key: &String) -> (r: Option<usize>)
    ensures
        match r {
            Some(k) => k < requests@.len() && k == first_request_with_key(requests@, key@)
                && has_request_key(requests@, key@),
            None => !has_request_key(requests@, key@),
        },
{
    let n = requests.len();
    let mut i: usize = 0;
    while i < n
        invariant
            n == requests@.len(),
            i <= n,
            forall|j: int| 0 <= j < i ==> (#[trigger] requests@[j]).request_key@ != key@,
        decreases n - i,
    {
        if requests[i].request_key == *key {
            let ghost k = first_request_with_key(requests@, key@);
            assert(requests@[i as int].request_key@ == key@);
            assert(k == i) by {
                if k < i {
                    assert(requests@[k].request_key@ != key@);
                } else if k > i {
                    assert(requests@[i as int].request_key@ != key@);
                }
            }
            return Some(i);
        }
        i = i + 1;
    }
    None
}

/// The error for an invalid batch: duplicate request keys, a wrong answer count, or the first
/// answer that is not acceptable.
pub open spec fn batch_error(
    requests: Seq<JudgmentRequest>,
    answers: Seq<ProviderAnswer>,
    e: JudgmentError,
) -> bool {
    e.error_kind() == ErrorKind::InvalidResponse && if !keys_distinct(request_keys(requests)) {
        e.error_text() == "provider batch contains duplicate request keys"@
    } else if answers.len() != requests.len() {
        e.error_text() == "provider batch answer count does not match the request count"@
    } else {
        exists|i: int|
            0 <= i < answers.len() && (forall|j: int|
                0 <= j < i ==> answer_acceptable(requests, answers, j)) && !answer_acceptable(
                requests,
                answers,
                i,
            ) && e.error_text() == answer_failure_text(requests, answers, i)
    }
}

/// Checks a batch response against its requests: unique request keys, one answer per
/// request, unique answer keys that name requests, and each result valid for its request.
pub fn validate_batch_result(requests: &[JudgmentRequest], response: &ProviderBatchResult) -> (r:
    Result<(), JudgmentError>)
    ensures
        r is Ok <==> batch_valid(requests@, response.answers@),
        r matches Err(e) ==> batch_error(requests@, response.answers@, e),
{
    let n = requests.len();
    let mut keys: Vec<String> = Vec::new();
    let mut i: usize = 0;
    while i < n
        invariant
            n == requests@.len(),
            i <= n,
            keys@.len() == i,
            forall|j: int| 0 <= j < i ==> (#[trigger] keys@[j])@ == requests@[j].request_key@,
            keys_distinct(request_keys(requests@).subrange(0, i as int)),
        decreases n - i,
    {
        let key = requests[i].request_key.clone();
        if find_key(&keys, i, &key) {
            proof {
                let w = choose|w: int|
                    0 <= w < i && keys.deep_view().subrange(0, i as int)[w] == key@;
                assert(request_keys(requests@)[w] == request_keys(requests@)[i as int]);
            }
            return Err(
                JudgmentError::invalid_response("provider batch contains duplicate request keys"),
            );
        }
        proof {
            let ks = request_keys(requests@);
            assert forall|a: int, b: int|
                0 <= a < b < i + 1 implies #[trigger] ks.subrange(0, i + 1)[a] != #[trigger] ks.subrange(
                0,
                i + 1,
            )[b] by {
                if b == i {
                    assert(keys.deep_view().subrange(0, i as int)[a] == ks[a]);
                } else {
                    assert(ks.subrange(0, i as int)[a] != ks.subrange(0, i as int)[b]);
                }
            }
        }
        keys.push(key);
        i = i + 1;
    }
    assert(request_keys(requests@).subrange(0, n as int) =~= request_keys(requests@));
    let m = response.answers.len();
    if m != n {
        return Err(
            JudgmentError::invalid_response(
                "provider batch answer count does not match the request count",
            ),
        );
    }
    let mut seen: Vec<String> = Vec::new();
    let mut a: usize = 0;
    while a < m
        invariant
            n == requests@.len(),
            m == response.answers@.len(),
            m == n,
            a <= m,
            keys_distinct(request_keys(requests@)),
            seen@.len() == a,
            forall|j: int|
                0 <= j < a ==> (#[trigger] seen@[j])@ == response.answers@[j].request_key@,
            forall|j: int| 0 <= j < a ==> answer_acceptable(requests@, response.answers@, j),
        decreases m - a,
    {
        let answer = &response.answers[a];
        check_answer(requests, &response.answers, a, &seen)?;
        seen.push(answer.request_key.clone());
        a = a + 1;
    }
    Ok(())
}

fn check_answer(
    requests: &[JudgmentRequest],
    answers: &Vec<ProviderAnswer>,
    a: usize,
    seen: &Vec<String>,
) -> (r: Result<(), JudgmentError>)
    requires
        a < answers@.len(),
        seen@.len() == a,
        forall|j: int| 0 <= j < a ==> (#[trigger] seen@[j])@ == answers@[j].request_key@,
    ensures
        r is Ok <==> answer_acceptable(requests@, answers@, a as int),
        r matches Err(e) ==> e.error_kind() == ErrorKind::InvalidResponse && e.error_text()
            == answer_failure_text(requests@, answers@, a as int),
{
    let answer = &answers[a];
    assert(seen.deep_view().subrange(0, a as int) =~= answer_keys(answers@).subrange(0, a as int));
    if find_key(seen, a, &answer.request_key) {
        return Err(JudgmentError::invalid_response("provider batch contains duplicate answer keys"));
    }
    match find_request(requests, &answer.request_key) {
        None => Err(JudgmentError::invalid_response("provider batch contains an unknown answer key")),
        Some(k) => check_result(&requests[k], &answer.result),
    }
}

fn check_result(request: &JudgmentRequest, result: &JudgmentResult) -> (r: Result<(), JudgmentError>)
    ensures
        r is Ok <==> result_answers(request@, *result),
        r matches Err(e) ==> e.error_kind() == ErrorKind::InvalidResponse && e.error_text()
            == answer_error_text(request@, *result),
{
    match (request.kind, result) {
        (QuestionKind::Noul, JudgmentResult::Noul(probability)) => {
            validate_probability(*probability)?;
            Ok(())
        },
        (QuestionKind::Choice, JudgmentResult::Choice(label)) => {
            validate_label(label.as_str(), request.choices.as_slice())?;
            Ok(())
        },
        _ => Err(
            JudgmentError::invalid_response("provider batch answer type does not match the request"),
        ),
    }
}

/// The default request-size estimate: 1024 bytes, plus per request 512 bytes and six bytes
/// per byte of state, text and key (saturating).
pub open spec fn default_request_bytes(requests: Seq<JudgmentRequest>) -> nat
    decreases requests.len(),
{
    if requests.len() == 0 {
        1024
    } else {
        let r = requests.last();
        let text = (match r.criterion {
            Some(c) => encode_utf8(c@).len(),
            None => 0,
        }) + (match r.question {
            Some(q) => encode_utf8(q@).len(),
            None => 0,
        }) + texts_bytes(r.choices@);
        default_request_bytes(requests.drop_last()) + 512 + 6 * r.state.bytes().len() + 6 * text
            + 6 * encode_utf8(r.request_key@).len()
    }
}

pub open spec fn texts_bytes(texts: Seq<String>) -> nat
    decreases texts.len(),
{
    if texts.len() == 0 {
        0
    } else {
        texts_bytes(texts.drop_last()) + encode_utf8(texts.last()@).len()
    }
}

/// The saturating sum the default estimate computes.
pub open spec fn saturated(v: nat) -> nat {
    if v > usize::MAX {
        usize::MAX as nat
    } else {
        v
    }
}

fn text_bytes(s: &String) -> (r: usize)
    ensures
        r == encode_utf8(s@).len(),
{
    s.as_str().as_bytes().len()
}

fn opt_text_bytes(s: &Option<String>) -> (r: usize)
    ensures
        r == (match *s {
            Some(c) => encode_utf8(c@).len(),
            None => 0,
        }),
{
    match s {
        Some(c) => text_bytes(c),
        None => 0,
    }
}

/// `6 * x`, saturating at `usize::MAX`.
fn times_six(x: usize) -> (r: usize)
    ensures
        r == saturated((6 * x) as nat),
{
    if x > usize::MAX / 6 {
        usize::MAX
    } else {
        x * 6
    }
}

/// Saturating sum of the UTF-8 lengths of `texts`.
fn sum_text_bytes(texts: &Vec<String>) -> (r: usize)
    ensures
        r == saturated(texts_bytes(texts@)),
{
    let n = texts.len();
    let mut total: usize = 0;
    let mut i: usize = 0;
    while i < n
        invariant
            n == texts@.len(),
            i <= n,
            total == saturated(texts_bytes(texts@.subrange(0, i as int))),
        decreases n - i,
    {
        assert(texts@.subrange(0, i + 1).drop_last() =~= texts@.subrange(0, i as int));
        total = total.saturating_add(text_bytes(&texts[i]));
        i = i + 1;
    }
    assert(texts@.subrange(0, n as int) =~= texts@);
    total
}

/// The default estimate of a request's size for a batch of `requests`, saturating at
/// `usize::MAX`.
pub fn default_estimate_request_bytes(requests: &[JudgmentRequest]) -> (r: usize)
    ensures
        r == saturated(default_request_bytes(requests@)),
{
    let n = requests.len();
    let mut total: usize = 1024;
    let mut i: usize = 0;
    while i < n
        invariant
            n == requests@.len(),
            i <= n,
            total == saturated(default_request_bytes(requests@.subrange(0, i as int))),
        decreases n - i,
    {
        let r = &requests[i];
        assert(requests@.subrange(0, i + 1).drop_last() =~= requests@.subrange(0, i as int));
        assert(requests@.subrange(0, i + 1).last() == *r);
        let text = opt_text_bytes(&r.criterion).saturating_add(
            opt_text_bytes(&r.question),
        ).saturating_add(sum_text_bytes(&r.choices));
        let state_len = r.state.canonical_bytes().len();
        total = total.saturating_add(512).saturating_add(times_six(state_len)).saturating_add(
            times_six(text),
        ).saturating_add(times_six(text_bytes(&r.request_key)));
        i = i + 1;
    }
    assert(requests@.subrange(0, n as int) =~= requests@);
    total
}

/// Adapter interface driven by the executor. Implementations decide how a judgment is
/// obtained; the executor validates everything they return.
pub trait Provider {
    fn capabilities(&self) -> ProviderCapabilities;

    fn makes_external_request(&self) -> (r: bool)
        default_ensures
            !r,
    {
        false
    }

    fn judge(&self, request: &JudgmentRequest) -> Result<JudgmentResult, JudgmentError>;

    /// The default pairs the single result with the request's key and reports no metadata.
    fn judge_with_metadata(&self, request: &JudgmentRequest) -> (r: Result<
        ProviderBatchResult,
        JudgmentError,
    >)
        default_ensures
            r matches Ok(response) ==> response.answers@.len() == 1
                && response.answers@[0].request_key@ == request.request_key@
                && response.metadata == (ProviderMetadata {
                requested_model: None,
                effective_model: None,
                usage: None,
                inference_time_ms: None,
                serialization_time_ns: None,
                external_roundtrip_ns: None,
            }),
    {
        let result = self.judge(request)?;
        let mut answers: Vec<ProviderAnswer> = Vec::new();
        answers.push(ProviderAnswer { request_key: request.request_key.clone(), result });
        Ok(ProviderBatchResult { answers, metadata: ProviderMetadata::empty() })
    }

    /// A model identity stable enough to key cross-query cache entries, if any.
    fn cache_model_identity(&self, requested_model: &str) -> (r: Option<String>)
        default_ensures
            r is None,
    {
        None
    }

    fn estimate_request_bytes(&self, requests: &[JudgmentRequest]) -> (r: usize)
        default_ensures
            r == saturated(default_request_bytes(requests@)),
    {
        default_estimate_request_bytes(requests)
    }

    /// The default serves exactly one request, of a verified question type, and returns a
    /// validated answer with no metadata.
    fn judge_many(&self, requests: &[JudgmentRequest]) -> (r: Result<
        ProviderBatchResult,
        JudgmentError,
    >)
        default_ensures
            requests@.len() != 1 ==> (r matches Err(e) && e.error_kind()
                == ErrorKind::Configuration && e.error_text()
                == "provider adapter does not implement multi-judgment requests"@),
            r matches Ok(response) ==> batch_valid(requests@, response.answers@)
                && response.metadata == (ProviderMetadata {
                requested_model: None,
                effective_model: None,
                usage: None,
                inference_time_ms: None,
                serialization_time_ns: None,
                external_roundtrip_ns: None,
            }),
    {
        if requests.len() != 1 {
            return Err(
                JudgmentError::configuration(
                    "provider adapter does not implement multi-judgment requests",
                ),
            );
        }
        let request = &requests[0];
        if self.capabilities().supports(request.kind) != CapabilityStatus::Verified {
            return Err(
                JudgmentError::configuration(
                    "provider capability for this question type is not verified",
                ),
            );
        }
        let result = self.judge(request)?;
        let mut answers: Vec<ProviderAnswer> = Vec::new();
        answers.push(ProviderAnswer { request_key: request.request_key.clone(), result });
        let response = ProviderBatchResult { answers, metadata: ProviderMetadata::empty() };
        validate_batch_result(requests, &response)?;
        Ok(response)
    }
}

#[derive(Debug, Clone, Copy, PartialEq, Eq, Hash, Structural)]
pub enum ProviderKind {
    Mock,
    Typesafe,
    SelfHosted,
}

/// Number of white-space characters at the start of `s`.
pub open spec fn leading_white_space(s: Seq<char>) -> nat
    decreases s.len(),
{
    if s.len() > 0 && crate::text::is_white_space(s[0]) {
        1 + leading_white_space(s.drop_first())
    } else {
        0
    }
}

/// Number of white-space characters at the end of `s`.
pub open spec fn trailing_white_space(s: Seq<char>) -> nat
    decreases s.len(),
{
    if s.len() > 0 && crate::text::is_white_space(s.last()) {
        1 + trailing_white_space(s.drop_last())
    } else {
        0
    }
}

/// `s` without leading and trailing white space.
pub open spec fn trimmed(s: Seq<char>) -> Seq<char> {
    if leading_white_space(s) == s.len() {
        Seq::empty()
    } else {
        s.subrange(leading_white_space(s) as int, s.len() - trailing_white_space(s))
    }
}

/// ASCII upper-case letters mapped to lower case; everything else unchanged.
pub open spec fn ascii_lower(s: Seq<char>) -> Seq<char> {
    s.map_values(|c: char| lower_char(c))
}

pub open spec fn lower_char(c: char) -> char {
    if 'A' <= c <= 'Z' {
        ((c as int) + 32) as char
    } else {
        c
    }
}

proof fn lemma_leading(s: Seq<char>, k: nat)
    requires
        k <= s.len(),
        forall|j: int| 0 <= j < k ==> crate::text::is_white_space(#[trigger] s[j]),
        k == s.len() || !crate::text::is_white_space(s[k as int]),
    ensures
        leading_white_space(s) == k,
    decreases k,
{
    if k > 0 {
        assert forall|j: int| 0 <= j < k - 1 implies crate::text::is_white_space(
            #[trigger] s.drop_first()[j],
        ) by {
            assert(s.drop_first()[j] == s[j + 1]);
        }
        if k < s.len() {
            assert(s.drop_first()[k - 1] == s[k as int]);
        }
        lemma_leading(s.drop_first(), (k - 1) as nat);
    }
}

proof fn lemma_trailing(s: Seq<char>, k: nat)
    requires
        k <= s.len(),
        forall|j: int| s.len() - k <= j < s.len() ==> crate::text::is_white_space(#[trigger] s[j]),
        k == s.len() || !crate::text::is_white_space(s[s.len() - k - 1]),
    ensures
        trailing_white_space(s) == k,
    decreases k,
{
    if k > 0 {
        assert forall|j: int|
            s.drop_last().len() - (k - 1) <= j < s.drop_last().len() implies crate::text::is_white_space(
            #[trigger] s.drop_last()[j],
        ) by {
            assert(s.drop_last()[j] == s[j]);
        }
        if k < s.len() {
            assert(s.drop_last()[s.drop_last().len() - (k - 1) - 1] == s[s.len() - k - 1]);
        }
        lemma_trailing(s.drop_last(), (k - 1) as nat);
    }
}

/// The trimmed, ASCII-lower-cased form of `raw`.
fn normalize(raw: &str) -> (r: String)
    ensures
        r@ == ascii_lower(trimmed(raw@)),
{
    let n = raw.unicode_len();
    let mut start: usize = 0;
    while start < n && crate::text::is_white_space_char(raw.get_char(start))
        invariant
            n == raw@.len(),
            start <= n,
            forall|j: int| 0 <= j < start ==> crate::text::is_white_space(#[trigger] raw@[j]),
        decreases n - start,
    {
        start = start + 1;
    }
    proof {
        lemma_leading(raw@, start as nat);
    }
    let mut out = String::new();
    if start == n {
        assert(trimmed(raw@) =~= Seq::<char>::empty());
        assert(ascii_lower(trimmed(raw@)) =~= out@);
        return out;
    }
    let mut end: usize = n;
    while end > start && crate::text::is_white_space_char(raw.get_char(end - 1))
        invariant
            n == raw@.len(),
            start < n,
            !crate::text::is_white_space(raw@[start as int]),
            start <= end <= n,
            forall|j: int| end <= j < n ==> crate::text::is_white_space(#[trigger] raw@[j]),
        decreases end,
    {
        end = end - 1;
    }
    proof {
        if end == start {
            assert(crate::text::is_white_space(raw@[start as int]));
        }
        lemma_trailing(raw@, (n - end) as nat);
    }
    let mut i: usize = start;
    while i < end
        invariant
            n == raw@.len(),
            start <= i <= end <= n,
            out@ == ascii_lower(raw@.subrange(start as int, i as int)),
        decreases end - i,
    {
        let c = raw.get_char(i);
        let lowered = if 'A' <= c && c <= 'Z' {
            ascii_lower_letter(c)
        } else {
            c
        };
        push_char(&mut out, lowered);
        assert(out@ =~= ascii_lower(raw@.subrange(start as int, i + 1)));
        i = i + 1;
    }
    out
}

pub(crate) fn ascii_lower_letter(c: char) -> (r: char)
    requires
        'A' <= c <= 'Z',
    ensures
        r == lower_char(c),
{
    let code = c as u32 + 32;
    let r = if code == 97 { 'a' } else if code == 98 { 'b' } else if code == 99 { 'c' } else if code
        == 100 { 'd' } else if code == 101 { 'e' } else if code == 102 { 'f' } else if code == 103 {
        'g'
    } else if code == 104 { 'h' } else if code == 105 { 'i' } else if code == 106 { 'j' } else if code
        == 107 { 'k' } else if code == 108 { 'l' } else if code == 109 { 'm' } else if code == 110 {
        'n'
    } else if code == 111 { 'o' } else if code == 112 { 'p' } else if code == 113 { 'q' } else if code
        == 114 { 'r' } else if code == 115 { 's' } else if code == 116 { 't' } else if code == 117 {
        'u'
    } else if code == 118 { 'v' } else if code == 119 { 'w' } else if code == 120 { 'x' } else if code
        == 121 { 'y' } else { 'z' };
    r
}

impl ProviderKind {
    /// The setting value naming this provider.
    pub open spec fn name(self) -> Seq<char> {
        match self {
            ProviderKind::Mock => "mock"@,
            ProviderKind::Typesafe => "typesafe"@,
            ProviderKind::SelfHosted => "selfhosted"@,
        }
    }

    /// Parses `duckjeu_provider`: surrounding white space and ASCII case are ignored.
    pub fn parse(raw: &str) -> (r: Result<Self, JudgmentError>)
        ensures
            match r {
                Ok(kind) => kind.name() == ascii_lower(trimmed(raw@)),
                Err(e) => {
                    &&& ascii_lower(trimmed(raw@)) != "mock"@
                    &&& ascii_lower(trimmed(raw@)) != "typesafe"@
                    &&& ascii_lower(trimmed(raw@)) != "selfhosted"@
                    &&& e.error_kind() == ErrorKind::Configuration
                    &&& e.error_text() == "unknown duckjeu_provider '"@ + ascii_lower(
                        trimmed(raw@),
                    ) + "': expected 'mock', 'typesafe', or 'selfhosted'"@
                },
            },
    {
        let normalized = normalize(raw);
        let mock = String::from_str("mock");
        let typesafe = String::from_str("typesafe");
        let selfhosted = String::from_str("selfhosted");
        if normalized == mock {
            Ok(ProviderKind::Mock)
        } else if normalized == typesafe {
            Ok(ProviderKind::Typesafe)
        } else if normalized == selfhosted {
            Ok(ProviderKind::SelfHosted)
        } else {
            let mut message = String::new();
            push_str(&mut message, "unknown duckjeu_provider '");
            push_str(&mut message, normalized.as_str());
            push_str(&mut message, "': expected 'mock', 'typesafe', or 'selfhosted'");
            Err(JudgmentError::with_message(ErrorKind::Configuration, message))
        }
    }

    pub fn as_str(&self) -> (r: &'static str)
        ensures
            r@ == self.name(),
    {
        match self {
            ProviderKind::Mock => "mock",
            ProviderKind::Typesafe => "typesafe",
            ProviderKind::SelfHosted => "selfhosted",
        }
    }
}

pub const DEFAULT_API_URL: &'static str = "https://api.typesafe.ai/v1/systemone";

pub const DEFAULT_MODEL: &'static str = "jev-latest";

pub const DEFAULT_LOCAL_JEV_API_URL: &'static str = "http://127.0.0.1:8765/v1/systemone";

pub const DEFAULT_LOCAL_JEV_MODEL: &'static str = "nli-deberta-large";

pub const DEFAULT_TIMEOUT_MS: u64 = 30_000;

pub const DEFAULT_MAX_RESPONSE_BYTES: u64 = 1_048_576;

/// The provider settings frozen for one execution.
#[derive(Debug, Clone, PartialEq)]
pub struct ProviderContext {
    pub provider: ProviderKind,
    pub api_url: String,
    pub model: String,
    pub timeout_ms: u64,
    pub max_response_bytes: u64,
    pub credential: Option<String>,
}

impl Default for ProviderContext {
    fn default() -> (r: Self)
        ensures
            r.provider == ProviderKind::Mock,
            r.api_url@ == DEFAULT_API_URL@,
            r.model@ == DEFAULT_MODEL@,
            r.timeout_ms == DEFAULT_TIMEOUT_MS,
            r.max_response_bytes == DEFAULT_MAX_RESPONSE_BYTES,
            r.credential is None,
    {
        ProviderContext {
            provider: ProviderKind::Mock,
            api_url: String::from_str(DEFAULT_API_URL),
            model: String::from_str(DEFAULT_MODEL),
            timeout_ms: DEFAULT_TIMEOUT_MS,
            max_response_bytes: DEFAULT_MAX_RESPONSE_BYTES,
            credential: None,
        }
    }
}

/// Which adapter a context asks for, with the credential it will use.
#[derive(Debug, Clone, PartialEq)]
pub enum ProviderSetup {
    Mock,
    Typesafe { credential: String },
    SelfHosted { credential: Option<String> },
}

/// Chooses the adapter for `ctx`. TypeSafe needs a non-blank credential; the self-hosted
/// service takes its credential as optional.
pub fn provider_setup(ctx: &ProviderContext) -> (r: Result<ProviderSetup, JudgmentError>)
    ensures
        match ctx.provider {
            ProviderKind::Mock => r == Ok::<ProviderSetup, JudgmentError>(ProviderSetup::Mock),
            ProviderKind::SelfHosted => r matches Ok(ProviderSetup::SelfHosted { credential })
                && credential.deep_view() == ctx.credential.deep_view(),
            ProviderKind::Typesafe => match ctx.credential {
                Some(c) if !is_blank_text(c@) => r matches Ok(
                    ProviderSetup::Typesafe { credential },
                ) && credential@ == c@,
                _ => r matches Err(e) && e.error_kind() == ErrorKind::Configuration
                    && e.error_text()
                    == "duckjeu_provider='typesafe' requires the TYPESAFE_API_KEY environment variable"@,
            },
        },
{
    match ctx.provider {
        ProviderKind::Mock => Ok(ProviderSetup::Mock),
        ProviderKind::Typesafe => {
            match &ctx.credential {
                Some(c) => {
                    if !crate::text::is_blank(c.as_str()) {
                        return Ok(ProviderSetup::Typesafe { credential: c.clone() });
                    }
                },
                None => {},
            }
            Err(
                JudgmentError::configuration(
                    "duckjeu_provider='typesafe' requires the TYPESAFE_API_KEY environment variable",
                ),
            )
        },
        ProviderKind::SelfHosted => Ok(
            ProviderSetup::SelfHosted { credential: crate::text::copy_opt_text(&ctx.credential) },
        ),
    }
}

} // verus!
