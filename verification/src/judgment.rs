//! Judgment contract: requests, identities, result validation and the boolean threshold.
//!
//! Probabilities are carried as IEEE-754 binary64 bit patterns. For patterns with a clear sign
//! bit the unsigned order of the patterns is the numeric order, which lets every range check
//! here be stated and proved on integers.

use vstd::prelude::*;

use crate::serialize::{CanonicalState, StateKind, ValueModel, CANONICAL_VERSION};
use crate::text::{
    copy_opt_text, copy_texts, is_blank, is_blank_text, same_bytes, same_opt_text, same_texts,
    texts_to_vec,
};

verus! {

/// One question per request carries the key `r0`; batches use `r{i}`.
pub const DEFAULT_REQUEST_KEY: &'static str = "r0";

/// Bit pattern of 1.0.
pub const ONE_BITS: u64 = 0x3FF0_0000_0000_0000;

/// Bit pattern of 0.5.
pub const HALF_BITS: u64 = 0x3FE0_0000_0000_0000;

/// Bit pattern of +infinity.
pub const POSITIVE_INFINITY_BITS: u64 = 0x7FF0_0000_0000_0000;

/// Bit pattern of -0.0.
pub const NEGATIVE_ZERO_BITS: u64 = 0x8000_0000_0000_0000;

/// Question type: binary probability (noul) or a closed set of labels (choice).
#[derive(Debug, Clone, Copy, PartialEq, Eq, Hash, Structural)]
pub enum QuestionKind {
    Noul,
    Choice,
}

/// Class of a judgment error.
#[derive(Debug, Clone, Copy, PartialEq, Eq, Hash, Structural)]
pub enum ErrorKind {
    /// Invalid input (blank criterion or question, invalid choices, ...).
    InvalidInput,
    /// The provider returned invalid content.
    InvalidResponse,
    /// The provider call failed (network, authentication, timeout, protocol).
    Provider,
    /// Configuration or credential problem.
    Configuration,
}

/// A judgment error; the message is already redacted and may be shown to SQL users.
#[derive(Debug, Clone, PartialEq, Eq)]
pub struct JudgmentError {
    kind: ErrorKind,
    message: String,
}

impl JudgmentError {
    pub closed spec fn error_kind(&self) -> ErrorKind {
        self.kind
    }

    pub closed spec fn error_text(&self) -> Seq<char> {
        self.message@
    }

    pub fn new(kind: ErrorKind, message: &str) -> (r: Self)
        ensures
            r.error_kind() == kind,
            r.error_text() == message@,
    {
        JudgmentError { kind, message: String::from_str(message) }
    }

    /// An error whose message was assembled at run time.
    pub fn with_message(kind: ErrorKind, message: String) -> (r: Self)
        ensures
            r.error_kind() == kind,
            r.error_text() == message@,
    {
        JudgmentError { kind, message }
    }

    pub fn invalid_input(message: &str) -> (r: Self)
        ensures
            r.error_kind() == ErrorKind::InvalidInput,
            r.error_text() == message@,
    {
        Self::new(ErrorKind::InvalidInput, message)
    }

    pub fn invalid_response(message: &str) -> (r: Self)
        ensures
            r.error_kind() == ErrorKind::InvalidResponse,
            r.error_text() == message@,
    {
        Self::new(ErrorKind::InvalidResponse, message)
    }

    pub fn provider(message: &str) -> (r: Self)
        ensures
            r.error_kind() == ErrorKind::Provider,
            r.error_text() == message@,
    {
        Self::new(ErrorKind::Provider, message)
    }

    pub fn configuration(message: &str) -> (r: Self)
        ensures
            r.error_kind() == ErrorKind::Configuration,
            r.error_text() == message@,
    {
        Self::new(ErrorKind::Configuration, message)
    }

    pub fn kind(&self) -> (r: ErrorKind)
        ensures
            r == self.error_kind(),
    {
        self.kind
    }

    pub fn message(&self) -> (r: &str)
        ensures
            r@ == self.error_text(),
    {
        self.message.as_str()
    }

    /// A copy with the same kind and message.
    pub fn duplicate(&self) -> (r: Self)
        ensures
            r == *self,
    {
        JudgmentError { kind: self.kind, message: self.message.clone() }
    }
}

/// A validated result, not yet mapped to a SQL type.
#[derive(Debug, Clone, PartialEq)]
pub enum JudgmentResult {
    /// Probability, as the bit pattern of a binary64 value.
    Noul(u64),
    /// One of the candidate labels.
    Choice(String),
}

impl JudgmentResult {
    /// An equal copy.
    pub fn duplicate(&self) -> (r: Self)
        ensures
            r == *self,
    {
        match self {
            JudgmentResult::Noul(p) => JudgmentResult::Noul(*p),
            JudgmentResult::Choice(label) => JudgmentResult::Choice(label.clone()),
        }
    }

    /// The probability's bit pattern of a noul result.
    pub fn as_probability(&self) -> (r: Option<u64>)
        ensures
            r == (match *self {
                JudgmentResult::Noul(p) => Some(p),
                JudgmentResult::Choice(_) => None,
            }),
    {
        match self {
            JudgmentResult::Noul(p) => Some(*p),
            JudgmentResult::Choice(_) => None,
        }
    }

    /// The label of a choice result.
    pub fn as_label(&self) -> (r: Option<&str>)
        ensures
            match *self {
                JudgmentResult::Noul(_) => r is None,
                JudgmentResult::Choice(label) => r matches Some(l) && l@ == label@,
            },
    {
        match self {
            JudgmentResult::Noul(_) => None,
            JudgmentResult::Choice(label) => Some(label.as_str()),
        }
    }
}

/// Whether a binary64 pattern is finite.
pub open spec fn finite_probability_bits(bits: u64) -> bool {
    crate::serialize::finite_bits(bits)
}

/// Whether a binary64 pattern is a number in [0, 1]: +0.0 up to 1.0, or -0.0.
pub open spec fn unit_interval_bits(bits: u64) -> bool {
    bits <= ONE_BITS || bits == NEGATIVE_ZERO_BITS
}

/// Whether a binary64 pattern is a number at least 0.5 (NaN is not).
pub open spec fn at_least_half_bits(bits: u64) -> bool {
    HALF_BITS <= bits <= POSITIVE_INFINITY_BITS
}

/// A probability must be a finite value in [0, 1].
pub fn validate_probability(bits: u64) -> (r: Result<u64, JudgmentError>)
    ensures
        match r {
            Ok(p) => p == bits && finite_probability_bits(bits) && unit_interval_bits(bits),
            Err(e) => e.error_kind() == ErrorKind::InvalidResponse && if !finite_probability_bits(
                bits,
            ) {
                e.error_text() == "provider returned a non-finite probability"@
            } else {
                !unit_interval_bits(bits) && e.error_text()
                    == "provider returned a probability outside [0,1]"@
            },
        },
{
    if (bits / 0x10_0000_0000_0000) % 2048 == 2047 {
        return Err(JudgmentError::invalid_response("provider returned a non-finite probability"));
    }
    if !(bits <= ONE_BITS || bits == NEGATIVE_ZERO_BITS) {
        return Err(
            JudgmentError::invalid_response("provider returned a probability outside [0,1]"),
        );
    }
    Ok(bits)
}

/// Whether some candidate equals `label` exactly.
pub open spec fn is_candidate(label: Seq<char>, choices: Seq<Seq<char>>) -> bool {
    exists|i: int| 0 <= i < choices.len() && choices[i] == label
}

/// A label must be an exact member of the candidate set (case, spacing and order count).
pub fn validate_label(label: &str, choices: &[String]) -> (r: Result<String, JudgmentError>)
    ensures
        match r {
            Ok(l) => l@ == label@ && is_candidate(label@, choices.deep_view()),
            Err(e) => !is_candidate(label@, choices.deep_view()) && e.error_kind()
                == ErrorKind::InvalidResponse && e.error_text()
                == "provider returned a label outside the candidate set"@,
        },
{
    let n = choices.len();
    let target = String::from_str(label);
    let mut i: usize = 0;
    while i < n
        invariant
            n == choices@.len(),
            i <= n,
            target@ == label@,
            forall|j: int| 0 <= j < i ==> (#[trigger] choices@[j])@ != label@,
        decreases n - i,
    {
        if choices[i] == target {
            assert(choices.deep_view()[i as int] == label@);
            return Ok(String::from_str(label));
        }
        i = i + 1;
    }
    assert(!is_candidate(label@, choices.deep_view())) by {
        assert forall|j: int| 0 <= j < choices.deep_view().len() implies choices.deep_view()[j]
            != label@ by {
            assert(choices@[j]@ != label@);
        }
    }
    Err(JudgmentError::invalid_response("provider returned a label outside the candidate set"))
}

/// The sign bit of a binary64 pattern.
pub open spec fn binary64_negative(bits: u64) -> bool {
    bits >= 0x8000_0000_0000_0000
}

/// The biased exponent field of a binary64 pattern: a non-negative finite value is at least
/// `2^(e - 1023)` when its exponent field `e` is at least 1 (and below `2^-1022` when it is 0).
pub open spec fn binary64_exponent(bits: u64) -> int {
    (bits as int / 0x10_0000_0000_0000) % 2048
}

/// The `jev_bool` threshold is one half. For a probability in [0, 1], the answer is true
/// exactly when the value is at least `2^-1` (biased exponent 1022 or more, sign clear); it
/// grows with the value, is false for zero (of either sign) and true for one.
pub proof fn law_bool_threshold_is_one_half(bits: u64)
    requires
        unit_interval_bits(bits),
    ensures
        at_least_half_bits(bits) <==> (binary64_exponent(bits) >= 1022 && !binary64_negative(
            bits,
        )),
        bits == 0 || bits == NEGATIVE_ZERO_BITS ==> !at_least_half_bits(bits),
        bits == ONE_BITS ==> at_least_half_bits(bits),
        forall|other: u64|
            unit_interval_bits(other) && !binary64_negative(other) && bits <= other
                && at_least_half_bits(bits) ==> #[trigger] at_least_half_bits(other),
{
}

/// A probability lies in [0, 1]: a non-negative pattern is accepted exactly when its value is
/// below 1 (biased exponent below 1023) or is 1 itself; of the negative patterns only -0.0 is.
pub proof fn law_unit_interval_is_zero_to_one(bits: u64)
    ensures
        !binary64_negative(bits) ==> (unit_interval_bits(bits) <==> (binary64_exponent(bits) < 1023
            || bits == ONE_BITS)),
        binary64_negative(bits) ==> (unit_interval_bits(bits) <==> bits == NEGATIVE_ZERO_BITS),
{
}

/// The fixed `jev_bool` threshold: true when `p >= 0.5` (inclusive).
pub fn bool_from_probability(bits: u64) -> (r: bool)
    ensures
        r == at_least_half_bits(bits),
        unit_interval_bits(bits) ==> (r <==> binary64_exponent(bits) >= 1022 && !binary64_negative(
            bits,
        )),
{
    proof {
        if unit_interval_bits(bits) {
            law_bool_threshold_is_one_half(bits);
        }
    }
    HALF_BITS <= bits && bits <= POSITIVE_INFINITY_BITS
}

/// Content of a request.
pub struct RequestView {
    pub kind: QuestionKind,
    pub state_kind: StateKind,
    pub state_bytes: Seq<u8>,
    pub state_model: ValueModel,
    pub criterion: Option<Seq<char>>,
    pub question: Option<Seq<char>>,
    pub choices: Seq<Seq<char>>,
    pub request_key: Seq<char>,
}

/// The complete semantic content of one outgoing request.
#[derive(Debug, PartialEq)]
pub struct JudgmentRequest {
    pub kind: QuestionKind,
    pub state: CanonicalState,
    /// Noul only: the criterion text.
    pub criterion: Option<String>,
    /// Choice only: the question text.
    pub question: Option<String>,
    /// Choice only: the candidate labels, kept verbatim.
    pub choices: Vec<String>,
    /// Request correlation key.
    pub request_key: String,
}

impl View for JudgmentRequest {
    type V = RequestView;

    open spec fn view(&self) -> RequestView {
        RequestView {
            kind: self.kind,
            state_kind: self.state.state_kind(),
            state_bytes: self.state.bytes(),
            state_model: self.state.model(),
            criterion: self.criterion.deep_view(),
            question: self.question.deep_view(),
            choices: self.choices.deep_view(),
            request_key: self.request_key@,
        }
    }
}

/// Every label is non-blank and differs from all labels before it.
pub open spec fn labels_valid(choices: Seq<Seq<char>>) -> bool {
    forall|i: int| 0 <= i < choices.len() ==> label_valid_at(choices, i)
}

pub open spec fn label_valid_at(choices: Seq<Seq<char>>, i: int) -> bool {
    !is_blank_text(choices[i]) && !choices.subrange(0, i).contains(choices[i])
}

/// The labels of an accepted choice are exactly the lists of non-blank, pairwise different
/// labels: no label may repeat anywhere in the list, and none may be blank.
pub proof fn law_valid_labels_are_distinct(labels: Seq<Seq<char>>)
    ensures
        labels_valid(labels) <==> {
            &&& forall|i: int| 0 <= i < labels.len() ==> !is_blank_text(#[trigger] labels[i])
            &&& forall|i: int, j: int|
                0 <= i < labels.len() && 0 <= j < labels.len() && i != j ==> #[trigger] labels[i]
                    != #[trigger] labels[j]
        },
{
    if labels_valid(labels) {
        assert forall|i: int, j: int|
            0 <= i < labels.len() && 0 <= j < labels.len() && i != j implies #[trigger] labels[i]
                != #[trigger] labels[j] by {
            let (lo, hi) = if i < j {
                (i, j)
            } else {
                (j, i)
            };
            assert(label_valid_at(labels, hi));
            assert(labels.subrange(0, hi)[lo] == labels[lo]);
        }
        assert forall|i: int| 0 <= i < labels.len() implies !is_blank_text(#[trigger] labels[i]) by {
            assert(label_valid_at(labels, i));
        }
    }
    if (forall|i: int| 0 <= i < labels.len() ==> !is_blank_text(#[trigger] labels[i])) && (forall|
        i: int,
        j: int,
    |
        0 <= i < labels.len() && 0 <= j < labels.len() && i != j ==> #[trigger] labels[i]
            != #[trigger] labels[j]) {
        assert forall|i: int| 0 <= i < labels.len() implies label_valid_at(labels, i) by {
            assert(!is_blank_text(labels[i]));
            if labels.subrange(0, i).contains(labels[i]) {
                let w = choose|w: int| 0 <= w < i && labels.subrange(0, i)[w] == labels[i];
                assert(labels[w] == labels[i]);
            }
        }
    }
}

impl JudgmentRequest {
    /// A noul request (shared by `jev_prob` and `jev_bool`).
    pub fn noul(state: CanonicalState, criterion: &str) -> (r: Result<Self, JudgmentError>)
        ensures
            match r {
                Ok(req) => {
                    &&& !is_blank_text(criterion@)
                    &&& req@ == RequestView {
                        kind: QuestionKind::Noul,
                        state_kind: state.state_kind(),
                        state_bytes: state.bytes(),
                        state_model: state.model(),
                        criterion: Some(criterion@),
                        question: None,
                        choices: Seq::empty(),
                        request_key: DEFAULT_REQUEST_KEY@,
                    }
                },
                Err(e) => is_blank_text(criterion@) && e.error_kind() == ErrorKind::InvalidInput
                    && e.error_text() == "criterion must not be empty or whitespace"@,
            },
    {
        if is_blank(criterion) {
            return Err(JudgmentError::invalid_input("criterion must not be empty or whitespace"));
        }
        let choices: Vec<String> = Vec::new();
        let r = JudgmentRequest {
            kind: QuestionKind::Noul,
            state,
            criterion: Some(String::from_str(criterion)),
            question: None,
            choices,
            request_key: String::from_str(DEFAULT_REQUEST_KEY),
        };
        assert(r.choices.deep_view() =~= Seq::<Seq<char>>::empty());
        Ok(r)
    }

    /// A choice request: a non-blank question and at least two distinct non-blank labels.
    pub fn choice(state: CanonicalState, question: &str, choices: &[String]) -> (r: Result<
        Self,
        JudgmentError,
    >)
        ensures
            match r {
                Ok(req) => {
                    &&& !is_blank_text(question@)
                    &&& choices@.len() >= 2
                    &&& labels_valid(choices.deep_view())
                    &&& forall|i: int, j: int|
                        0 <= i < choices@.len() && 0 <= j < choices@.len() && i != j
                            ==> (#[trigger] choices@[i])@ != (#[trigger] choices@[j])@
                    &&& req@ == RequestView {
                        kind: QuestionKind::Choice,
                        state_kind: state.state_kind(),
                        state_bytes: state.bytes(),
                        state_model: state.model(),
                        criterion: None,
                        question: Some(question@),
                        choices: choices.deep_view(),
                        request_key: DEFAULT_REQUEST_KEY@,
                    }
                },
                Err(e) => e.error_kind() == ErrorKind::InvalidInput && if is_blank_text(
                    question@,
                ) {
                    e.error_text() == "question must not be empty or whitespace"@
                } else if choices@.len() < 2 {
                    e.error_text() == "choices must contain at least two labels"@
                } else {
                    exists|i: int|
                        0 <= i < choices@.len() && (forall|j: int|
                            0 <= j < i ==> label_valid_at(choices.deep_view(), j))
                            && !label_valid_at(choices.deep_view(), i) && if is_blank_text(
                            choices.deep_view()[i],
                        ) {
                            e.error_text()
                                == "choices must not contain empty or whitespace labels"@
                        } else {
                            e.error_text() == "choices must not contain duplicate labels"@
                        }
                },
            },
    {
        if is_blank(question) {
            return Err(JudgmentError::invalid_input("question must not be empty or whitespace"));
        }
        if choices.len() < 2 {
            return Err(JudgmentError::invalid_input("choices must contain at least two labels"));
        }
        let ghost labels = choices.deep_view();
        let n = choices.len();
        let mut idx: usize = 0;
        while idx < n
            invariant
                n == choices@.len(),
                n >= 2,
                !is_blank_text(question@),
                labels == choices.deep_view(),
                idx <= n,
                forall|j: int| 0 <= j < idx ==> label_valid_at(labels, j),
            decreases n - idx,
        {
            if is_blank(choices[idx].as_str()) {
                assert(labels[idx as int] == choices@[idx as int]@);
                assert(!label_valid_at(labels, idx as int));
                assert(is_blank_text(labels[idx as int]));
                return Err(
                    JudgmentError::invalid_input(
                        "choices must not contain empty or whitespace labels",
                    ),
                );
            }
            let mut k: usize = 0;
            while k < idx
                invariant
                    n == choices@.len(),
                    n >= 2,
                    !is_blank_text(question@),
                    !is_blank_text(labels[idx as int]),
                    forall|j: int| 0 <= j < idx ==> label_valid_at(labels, j),
                    labels == choices.deep_view(),
                    k <= idx < n,
                    forall|j: int| 0 <= j < k ==> labels[j] != labels[idx as int],
                decreases idx - k,
            {
                if choices[k] == choices[idx] {
                    assert(labels.subrange(0, idx as int)[k as int] == labels[idx as int]);
                    assert(!label_valid_at(labels, idx as int));
                    assert(!is_blank_text(labels[idx as int]));
                    return Err(
                        JudgmentError::invalid_input("choices must not contain duplicate labels"),
                    );
                }
                k = k + 1;
            }
            assert(!labels.subrange(0, idx as int).contains(labels[idx as int])) by {
                if labels.subrange(0, idx as int).contains(labels[idx as int]) {
                    let w = choose|w: int|
                        0 <= w < idx && labels.subrange(0, idx as int)[w] == labels[idx as int];
                    assert(labels[w] != labels[idx as int]);
                }
            }
            idx = idx + 1;
        }
        proof {
            law_valid_labels_are_distinct(labels);
            assert forall|i: int, j: int|
                0 <= i < choices@.len() && 0 <= j < choices@.len() && i != j implies (
                #[trigger] choices@[i])@ != (#[trigger] choices@[j])@ by {
                assert(labels[i] == choices@[i]@);
                assert(labels[j] == choices@[j]@);
            }
        }
        let copied = texts_to_vec(choices);
        Ok(
            JudgmentRequest {
                kind: QuestionKind::Choice,
                state,
                criterion: None,
                question: Some(String::from_str(question)),
                choices: copied,
                request_key: String::from_str(DEFAULT_REQUEST_KEY),
            },
        )
    }

    /// An equal copy.
    pub fn duplicate(&self) -> (r: Self)
        ensures
            r@ == self@,
    {
        self.with_key(self.request_key.clone())
    }

    /// An equal copy of the request under another correlation key.
    pub fn with_key(&self, key: String) -> (r: Self)
        ensures
            r@ == (RequestView { request_key: key@, ..self@ }),
    {
        JudgmentRequest {
            kind: self.kind,
            state: self.state.duplicate(),
            criterion: copy_opt_text(&self.criterion),
            question: copy_opt_text(&self.question),
            choices: copy_texts(&self.choices),
            request_key: key,
        }
    }
}

/// Non-secret provider context that scopes an identity. `credential_scope` is an opaque
/// host-generated value, never a credential; when the effective model is unknown,
/// `model_binding_scope` keeps an unresolved alias inside the host's execution context.
#[derive(Debug, Clone, PartialEq, Eq)]
pub struct JudgmentIdentityContext {
    pub provider_namespace: String,
    pub endpoint: String,
    pub requested_model: String,
    pub effective_model: Option<String>,
    pub credential_scope: u64,
    pub model_binding_scope: u64,
}

/// Content of a judgment identity.
pub struct IdentityView {
    pub canonical_version: u32,
    pub state_kind: StateKind,
    pub canonical_bytes: Seq<u8>,
    pub question_kind: QuestionKind,
    pub criterion: Option<Seq<char>>,
    pub question: Option<Seq<char>>,
    pub choices: Seq<Seq<char>>,
    pub provider_namespace: Seq<char>,
    pub endpoint: Seq<char>,
    pub requested_model: Seq<char>,
    pub effective_model: Option<Seq<char>>,
    pub credential_scope: u64,
    pub unresolved_model_scope: Option<u64>,
}

/// Complete semantic identity of a judgment: the canonical payload, the question and the
/// service context. Two identities are the same judgment exactly when every field is equal.
#[derive(Debug, Clone, PartialEq, Eq, Hash)]
pub struct JudgmentIdentity {
    pub canonical_version: u32,
    pub state_kind: StateKind,
    pub canonical_bytes: Vec<u8>,
    pub question_kind: QuestionKind,
    pub criterion: Option<String>,
    pub question: Option<String>,
    pub choices: Vec<String>,
    pub provider_namespace: String,
    pub endpoint: String,
    pub requested_model: String,
    pub effective_model: Option<String>,
    pub credential_scope: u64,
    /// Present only when the response cannot pin a mutable model alias to a known version.
    pub unresolved_model_scope: Option<u64>,
}

impl View for JudgmentIdentity {
    type V = IdentityView;

    open spec fn view(&self) -> IdentityView {
        IdentityView {
            canonical_version: self.canonical_version,
            state_kind: self.state_kind,
            canonical_bytes: self.canonical_bytes@,
            question_kind: self.question_kind,
            criterion: self.criterion.deep_view(),
            question: self.question.deep_view(),
            choices: self.choices.deep_view(),
            provider_namespace: self.provider_namespace@,
            endpoint: self.endpoint@,
            requested_model: self.requested_model@,
            effective_model: self.effective_model.deep_view(),
            credential_scope: self.credential_scope,
            unresolved_model_scope: self.unresolved_model_scope,
        }
    }
}

/// The identity of `request` in `context`.
pub open spec fn identity_of(
    request: RequestView,
    context: JudgmentIdentityContext,
) -> IdentityView {
    IdentityView {
        canonical_version: CANONICAL_VERSION,
        state_kind: request.state_kind,
        canonical_bytes: request.state_bytes,
        question_kind: request.kind,
        criterion: request.criterion,
        question: request.question,
        choices: request.choices,
        provider_namespace: context.provider_namespace@,
        endpoint: context.endpoint@,
        requested_model: context.requested_model@,
        effective_model: context.effective_model.deep_view(),
        credential_scope: context.credential_scope,
        unresolved_model_scope: if context.effective_model is None {
            Some(context.model_binding_scope)
        } else {
            None
        },
    }
}

/// Two identities may share one provider batch: everything but the state agrees.
pub open spec fn batch_compatible(a: IdentityView, b: IdentityView) -> bool {
    &&& a.canonical_version == b.canonical_version
    &&& a.question_kind == b.question_kind
    &&& a.criterion == b.criterion
    &&& a.question == b.question
    &&& a.choices == b.choices
    &&& a.provider_namespace == b.provider_namespace
    &&& a.endpoint == b.endpoint
    &&& a.requested_model == b.requested_model
    &&& a.effective_model == b.effective_model
    &&& a.credential_scope == b.credential_scope
    &&& a.unresolved_model_scope == b.unresolved_model_scope
}

impl JudgmentIdentity {
    pub fn new(request: &JudgmentRequest, context: JudgmentIdentityContext) -> (r: Self)
        ensures
            r@ == identity_of(request@, context),
    {
        let unresolved_model_scope = if context.effective_model.is_none() {
            Some(context.model_binding_scope)
        } else {
            None
        };
        let r = JudgmentIdentity {
            canonical_version: request.state.canonical_version(),
            state_kind: request.state.kind(),
            canonical_bytes: vstd::slice::slice_to_vec(request.state.canonical_bytes()),
            question_kind: request.kind,
            criterion: copy_opt_text(&request.criterion),
            question: copy_opt_text(&request.question),
            choices: copy_texts(&request.choices),
            provider_namespace: context.provider_namespace,
            endpoint: context.endpoint,
            requested_model: context.requested_model,
            effective_model: context.effective_model,
            credential_scope: context.credential_scope,
            unresolved_model_scope,
        };
        r
    }

    /// Whether two identities may share one provider batch without changing the question,
    /// service, model, credential, or unresolved-alias execution scope.
    pub fn same_batch_context(&self, other: &Self) -> (r: bool)
        ensures
            r == batch_compatible(self@, other@),
    {
        self.canonical_version == other.canonical_version && self.question_kind
            == other.question_kind && same_opt_text(&self.criterion, &other.criterion)
            && same_opt_text(&self.question, &other.question) && same_texts(
            &self.choices,
            &other.choices,
        ) && self.provider_namespace == other.provider_namespace && self.endpoint
            == other.endpoint && self.requested_model == other.requested_model && same_opt_text(
            &self.effective_model,
            &other.effective_model,
        ) && self.credential_scope == other.credential_scope && self.unresolved_model_scope
            == other.unresolved_model_scope
    }

    /// Whether the two identities are the same judgment (every field equal).
    pub fn same_identity(&self, other: &Self) -> (r: bool)
        ensures
            r == (self@ == other@),
    {
        self.same_batch_context(other) && self.state_kind == other.state_kind && same_bytes(
            &self.canonical_bytes,
            &other.canonical_bytes,
        )
    }

    /// An equal copy.
    pub fn duplicate(&self) -> (r: Self)
        ensures
            r@ == self@,
    {
        JudgmentIdentity {
            canonical_version: self.canonical_version,
            state_kind: self.state_kind,
            canonical_bytes: vstd::slice::slice_to_vec(self.canonical_bytes.as_slice()),
            question_kind: self.question_kind,
            criterion: copy_opt_text(&self.criterion),
            question: copy_opt_text(&self.question),
            choices: copy_texts(&self.choices),
            provider_namespace: self.provider_namespace.clone(),
            endpoint: self.endpoint.clone(),
            requested_model: self.requested_model.clone(),
            effective_model: copy_opt_text(&self.effective_model),
            credential_scope: self.credential_scope,
            unresolved_model_scope: self.unresolved_model_scope,
        }
    }
}

/// Whether `result` answers `request`: same question type, probability finite and in [0, 1],
/// label a candidate.
pub open spec fn result_answers(request: RequestView, result: JudgmentResult) -> bool {
    match (request.kind, result) {
        (QuestionKind::Noul, JudgmentResult::Noul(p)) => finite_probability_bits(p)
            && unit_interval_bits(p),
        (QuestionKind::Choice, JudgmentResult::Choice(label)) => is_candidate(
            label@,
            request.choices,
        ),
        _ => false,
    }
}

/// Checks an adapter result again at the executor boundary before it is reused or written.
pub fn validate_judgment_result(request: &JudgmentRequest, result: &JudgmentResult) -> (r: Result<
    (),
    JudgmentError,
>)
    ensures
        r is Ok <==> result_answers(request@, *result),
        r matches Err(e) ==> e.error_kind() == ErrorKind::InvalidResponse,
{
    match (request.kind, result) {
        (QuestionKind::Noul, JudgmentResult::Noul(probability)) => {
            validate_probability(*probability)?;
            Ok(())
        },
        (QuestionKind::Choice, JudgmentResult::Choice(label)) => {
            validate_label(label.as_str(), request.choices.as_slice())?;
            Ok(())
        },
        _ => Err(
            JudgmentError::invalid_response(
                "provider result type does not match the requested judgment",
            ),
        ),
    }
}

/// A judgment identity is complete: two requests asked in two contexts are the same judgment
/// exactly when the state (its type and canonical bytes), the question (type, criterion or
/// question text, candidates in order) and the service context (provider, endpoint, requested
/// and effective model, credential scope) all agree, and, while the effective model is
/// unknown, the scope in which the model alias was bound agrees too.
pub proof fn law_identity_is_complete(
    r1: RequestView,
    c1: JudgmentIdentityContext,
    r2: RequestView,
    c2: JudgmentIdentityContext,
)
    ensures
        identity_of(r1, c1) == identity_of(r2, c2) <==> {
            &&& r1.state_kind == r2.state_kind
            &&& r1.state_bytes == r2.state_bytes
            &&& r1.kind == r2.kind
            &&& r1.criterion == r2.criterion
            &&& r1.question == r2.question
            &&& r1.choices == r2.choices
            &&& c1.provider_namespace@ == c2.provider_namespace@
            &&& c1.endpoint@ == c2.endpoint@
            &&& c1.requested_model@ == c2.requested_model@
            &&& c1.effective_model.deep_view() == c2.effective_model.deep_view()
            &&& c1.credential_scope == c2.credential_scope
            &&& (c1.effective_model is None ==> c1.model_binding_scope == c2.model_binding_scope)
        },
{
    if c1.effective_model.deep_view() == c2.effective_model.deep_view() {
        assert(c1.effective_model is None <==> c2.effective_model is None);
    }
}

/// Identities differing only in the state may share a batch; identities that may share a
/// batch agree on everything but the state.
pub proof fn law_batch_context_excludes_only_the_state(a: IdentityView, b: IdentityView)
    ensures
        batch_compatible(a, b) && a.state_kind == b.state_kind && a.canonical_bytes
            == b.canonical_bytes <==> a == b,
{
}

} // verus!
