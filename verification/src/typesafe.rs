//! TypeSafe System One protocol: request documents, response validation, capabilities and
//! the service's failure rules.
//!
//! The credential is only ever sent in the Authorization header by the transport; errors name
//! no credential and no remote body; nothing is retried. The HTTP exchange itself belongs to
//! the host.

use vstd::prelude::*;

use crate::judgment::{
    finite_probability_bits, is_candidate, result_answers, unit_interval_bits, validate_label,
    validate_probability, ErrorKind, JudgmentError, JudgmentRequest, JudgmentResult,
    QuestionKind, RequestView,
};
use crate::json::{
    get_member, number_of, object_members, text_of, Json, JsonNumber, JsonView,
};
use crate::provider::{
    answer_keys, batch_valid, first_request_with_key, keys_distinct, request_keys,
    validate_batch_result, CapabilityStatus, ProviderAnswer, ProviderBatchResult,
    ProviderCapabilities, ProviderMetadata, ProviderUsage,
};
use crate::serialize::{value_json, ValueModel};
use crate::text::{copy_texts, decimal, push_char, push_decimal, push_str, same_opt_text, same_texts};

verus! {

/// The effective model for which cross-state batching was verified against the live service.
pub const VERIFIED_BATCH_EFFECTIVE_MODEL: &'static str = "jev-1.13.0";

pub const TYPESAFE_PROTOCOL: &'static str = "typesafe-systemone/v1";

pub const LOCAL_JEV_PROTOCOL: &'static str = "local-jev/64a0b31";

pub const TYPESAFE_AUTH_HINT: &'static str = "check DUCKJEU_API_KEY or TYPESAFE_API_KEY";

pub const LOCAL_JEV_AUTH_HINT: &'static str = "check DUCKJEU_LOCAL_JEV_API_KEY";

/// Whether two texts are equal.
fn same_text(a: &str, b: &str) -> (r: bool)
    ensures
        r == (a@ == b@),
{
    let x = String::from_str(a);
    let y = String::from_str(b);
    x == y
}

/// Cross-state batching is verified for the pinned model and for the alias that resolves to it.
pub fn multi_state_batch_status(model: &str) -> (r: CapabilityStatus)
    ensures
        r == if model@ == "jev-latest"@ || model@ == VERIFIED_BATCH_EFFECTIVE_MODEL@ {
            CapabilityStatus::Verified
        } else {
            CapabilityStatus::Unknown
        },
{
    if same_text(model, "jev-latest") || same_text(model, VERIFIED_BATCH_EFFECTIVE_MODEL) {
        CapabilityStatus::Verified
    } else {
        CapabilityStatus::Unknown
    }
}

/// Settings of one TypeSafe-protocol service. The HTTP agent that talks to it is the host's.
#[derive(Debug, Clone)]
pub struct TypesafeProvider {
    pub api_url: String,
    pub model: String,
    pub timeout_ms: u64,
    pub max_response_bytes: u64,
    pub credential: Option<String>,
    pub protocol_version: &'static str,
    pub multi_state_batch: CapabilityStatus,
    pub max_choices: Option<usize>,
    pub reject_truncated_header: bool,
    pub auth_hint: &'static str,
    pub cacheable_model_aliases: bool,
}

/// Whether `c` is an ASCII digit.
pub open spec fn is_digit(c: char) -> bool {
    '0' <= c <= '9'
}

/// `v` is dot-separated groups of ASCII digits, at least two groups, none empty.
pub open spec fn dotted_version(v: Seq<char>) -> bool {
    &&& v.len() > 0
    &&& forall|i: int| 0 <= i < v.len() ==> is_digit(#[trigger] v[i]) || v[i] == '.'
    &&& is_digit(v[0])
    &&& is_digit(v.last())
    &&& forall|i: int| 0 <= i < v.len() - 1 ==> !(#[trigger] v[i] == '.' && v[i + 1] == '.')
    &&& exists|i: int| 0 <= i < v.len() && #[trigger] v[i] == '.'
}

/// A pinned model identifier: `jev-` followed by a dotted numeric version.
pub open spec fn versioned_model(m: Seq<char>) -> bool {
    m.len() >= 4 && m.subrange(0, 4) == "jev-"@ && dotted_version(m.subrange(4, m.len() as int))
}

fn dotted_version_check(s: &str, start: usize) -> (r: bool)
    requires
        start <= s@.len(),
    ensures
        r == dotted_version(s@.subrange(start as int, s@.len() as int)),
{
    let n = s.unicode_len();
    let ghost v = s@.subrange(start as int, n as int);
    if start == n {
        return false;
    }
    let mut i: usize = start;
    let mut seen_dot = false;
    let mut previous_dot = false;
    while i < n
        invariant
            n == s@.len(),
            start < n,
            start <= i <= n,
            v == s@.subrange(start as int, n as int),
            forall|k: int| 0 <= k < i - start ==> is_digit(#[trigger] v[k]) || v[k] == '.',
            forall|k: int| 0 <= k < i - start - 1 ==> !(#[trigger] v[k] == '.' && v[k + 1] == '.'),
            i > start ==> is_digit(v[0]),
            i > start ==> previous_dot == (v[i - start - 1] == '.'),
            seen_dot == exists|k: int| 0 <= k < i - start && #[trigger] v[k] == '.',
        decreases n - i,
    {
        let c = s.get_char(i);
        assert(c == v[i - start]);
        if c == '.' {
            if i == start || previous_dot {
                return false;
            }
            previous_dot = true;
            seen_dot = true;
        } else if '0' <= c && c <= '9' {
            previous_dot = false;
        } else {
            return false;
        }
        i = i + 1;
    }
    if previous_dot {
        return false;
    }
    seen_dot
}

impl TypesafeProvider {
    /// The hosted TypeSafe service.
    pub fn new(
        api_url: String,
        model: String,
        timeout_ms: u64,
        max_response_bytes: u64,
        credential: String,
    ) -> (r: Self)
        ensures
            r.api_url == api_url,
            r.model == model,
            r.timeout_ms == timeout_ms,
            r.max_response_bytes == max_response_bytes,
            r.credential == Some(credential),
            r.protocol_version@ == TYPESAFE_PROTOCOL@,
            r.multi_state_batch == (if model@ == "jev-latest"@ || model@
                == VERIFIED_BATCH_EFFECTIVE_MODEL@ {
                CapabilityStatus::Verified
            } else {
                CapabilityStatus::Unknown
            }),
            r.max_choices is None,
            !r.reject_truncated_header,
            r.auth_hint@ == TYPESAFE_AUTH_HINT@,
            r.cacheable_model_aliases,
    {
        let multi_state_batch = multi_state_batch_status(model.as_str());
        TypesafeProvider {
            api_url,
            model,
            timeout_ms,
            max_response_bytes,
            credential: Some(credential),
            protocol_version: TYPESAFE_PROTOCOL,
            multi_state_batch,
            max_choices: None,
            reject_truncated_header: false,
            auth_hint: TYPESAFE_AUTH_HINT,
            cacheable_model_aliases: true,
        }
    }

    /// A self-hosted local-jev service: cross-state batching unsupported, at most 255 labels,
    /// truncated states refused, no cross-query caching.
    pub fn new_localjev(
        api_url: String,
        model: String,
        timeout_ms: u64,
        max_response_bytes: u64,
        credential: Option<String>,
    ) -> (r: Self)
        ensures
            r.api_url == api_url,
            r.model == model,
            r.timeout_ms == timeout_ms,
            r.max_response_bytes == max_response_bytes,
            r.credential == credential,
            r.protocol_version@ == LOCAL_JEV_PROTOCOL@,
            r.multi_state_batch == CapabilityStatus::Unsupported,
            r.max_choices == Some(255usize),
            r.reject_truncated_header,
            r.auth_hint@ == LOCAL_JEV_AUTH_HINT@,
            !r.cacheable_model_aliases,
    {
        TypesafeProvider {
            api_url,
            model,
            timeout_ms,
            max_response_bytes,
            credential,
            protocol_version: LOCAL_JEV_PROTOCOL,
            multi_state_batch: CapabilityStatus::Unsupported,
            max_choices: Some(255),
            reject_truncated_header: true,
            auth_hint: LOCAL_JEV_AUTH_HINT,
            cacheable_model_aliases: false,
        }
    }

    pub fn capabilities(&self) -> (r: ProviderCapabilities)
        ensures
            r.protocol_version@ == self.protocol_version@,
            r.noul == CapabilityStatus::Verified,
            r.choice == CapabilityStatus::Verified,
            r.multi_state_batch == self.multi_state_batch,
            r.max_batch_judgments is None,
            r.max_choices == self.max_choices,
    {
        ProviderCapabilities {
            protocol_version: String::from_str(self.protocol_version),
            noul: CapabilityStatus::Verified,
            choice: CapabilityStatus::Verified,
            multi_state_batch: self.multi_state_batch,
            max_batch_judgments: None,
            max_choices: self.max_choices,
        }
    }

    /// Only explicit versioned model identifiers key cross-query cache entries; mutable aliases
    /// such as `jev-latest` do not.
    pub fn cache_model_identity(&self, requested_model: &str) -> (r: Option<String>)
        ensures
            r is Some <==> self.cacheable_model_aliases && versioned_model(requested_model@),
            r matches Some(m) ==> m@ == requested_model@,
    {
        if !self.cacheable_model_aliases {
            return None;
        }
        let n = requested_model.unicode_len();
        if n < 4 {
            return None;
        }
        let prefix = requested_model.substring_char(0, 4);
        if !same_text(prefix, "jev-") {
            return None;
        }
        if !dotted_version_check(requested_model, 4) {
            return None;
        }
        Some(String::from_str(requested_model))
    }

    /// A choice question may not exceed the service's label limit.
    pub fn check_request_capabilities(&self, request: &JudgmentRequest) -> (r: Result<
        (),
        JudgmentError,
    >)
        ensures
            r is Err <==> (self.max_choices matches Some(m) && request.kind == QuestionKind::Choice
                && request.choices@.len() > m),
            r matches Err(e) ==> e.error_kind() == ErrorKind::Configuration && e.error_text()
                == "choice count exceeds the verified provider limit"@,
    {
        if let Some(maximum) = self.max_choices {
            if request.kind == QuestionKind::Choice && request.choices.len() > maximum {
                return Err(
                    JudgmentError::configuration("choice count exceeds the verified provider limit"),
                );
            }
        }
        Ok(())
    }

    /// A request for more than one judgment needs verified cross-state support.
    pub fn check_multi_state(&self) -> (r: Result<(), JudgmentError>)
        ensures
            r is Ok <==> self.multi_state_batch == CapabilityStatus::Verified,
            r matches Err(e) ==> e.error_kind() == ErrorKind::Configuration && e.error_text() == (
            if self.multi_state_batch == CapabilityStatus::Unknown {
                "provider multi-state batch capability is not verified"@
            } else {
                "provider does not support cross-state batch requests"@
            }),
    {
        match self.multi_state_batch {
            CapabilityStatus::Verified => Ok(()),
            CapabilityStatus::Unknown => Err(
                JudgmentError::configuration(
                    "provider multi-state batch capability is not verified",
                ),
            ),
            CapabilityStatus::Unsupported => Err(
                JudgmentError::configuration("provider does not support cross-state batch requests"),
            ),
        }
    }
}

/// Instructions of a noul question about row `row` of the composite state.
pub open spec fn noul_instructions(row: nat) -> Seq<char> {
    "Evaluate whether state.condition holds for state.rows["@ + decimal(row)
        + "]. Answer with the probability that it holds."@
}

/// Instructions of a choice question about row `row` of the composite state.
pub open spec fn choice_instructions(question: Seq<char>, row: nat) -> Seq<char> {
    "Caller question: "@ + question
        + "\nSelect the single candidate label that best answers this question for state.rows["@
        + decimal(row) + "]."@
}

/// The candidate map of a choice question: every label mapped to null.
pub open spec fn criteria_view(choices: Seq<Seq<char>>) -> JsonView {
    JsonView::Object(choices.map_values(|l: Seq<char>| (l, JsonView::Null)))
}

/// The question object for row `row`.
pub open spec fn question_view(request: RequestView, question: Seq<char>, row: nat) -> JsonView {
    match request.kind {
        QuestionKind::Noul => JsonView::Object(
            seq![
                ("instructions"@, JsonView::Str(noul_instructions(row))),
                ("type"@, JsonView::Str("noul"@)),
            ],
        ),
        QuestionKind::Choice => JsonView::Object(
            seq![
                ("criteria"@, criteria_view(request.choices)),
                ("instructions"@, JsonView::Str(choice_instructions(question, row))),
                ("type"@, JsonView::Str("choice"@)),
            ],
        ),
    }
}

/// A state row: a text state as its raw string, a STRUCT state as its node object.
pub open spec fn state_row_view(request: RequestView) -> JsonView {
    match request.state_model {
        ValueModel::Text(t) => JsonView::Str(t),
        other => value_json(other),
    }
}

pub open spec fn text_or_empty(t: Option<Seq<char>>) -> Seq<char> {
    match t {
        Some(s) => s,
        None => Seq::empty(),
    }
}

/// The state object: the noul condition, when there is one, and the rows.
pub open spec fn state_view(condition: Option<Seq<char>>, rows: Seq<JsonView>) -> JsonView {
    match condition {
        Some(c) => JsonView::Object(
            seq![("condition"@, JsonView::Str(c)), ("rows"@, JsonView::Array(rows))],
        ),
        None => JsonView::Object(seq![("rows"@, JsonView::Array(rows))]),
    }
}

pub open spec fn body_view(model: Seq<char>, state: JsonView, questions: JsonView) -> JsonView {
    JsonView::Object(
        seq![
            ("model"@, JsonView::Str(model)),
            ("questions"@, questions),
            ("state"@, state),
        ],
    )
}

/// The document asking one judgment.
pub open spec fn single_body_view(model: Seq<char>, request: RequestView) -> JsonView {
    body_view(
        model,
        state_view(
            if request.kind == QuestionKind::Noul {
                Some(text_or_empty(request.criterion))
            } else {
                None
            },
            seq![state_row_view(request)],
        ),
        JsonView::Object(
            seq![(request.request_key, question_view(request, text_or_empty(request.question), 0))],
        ),
    )
}

/// The composite document asking every request of a compatible batch, row `b` for request `b`.
pub open spec fn batch_body_view(model: Seq<char>, requests: Seq<RequestView>) -> JsonView {
    body_view(
        model,
        state_view(
            if requests[0].kind == QuestionKind::Noul {
                Some(text_or_empty(requests[0].criterion))
            } else {
                None
            },
            requests.map_values(|r: RequestView| state_row_view(r)),
        ),
        JsonView::Object(
            Seq::new(
                requests.len(),
                |b: int|
                    (
                        requests[b].request_key,
                        question_view(requests[b], text_or_empty(requests[b].question), b as nat),
                    ),
            ),
        ),
    )
}

/// Why request `i` cannot join the batch, if it cannot: the label limit, a repeated key, or a
/// question context other than the first request's.
pub open spec fn batch_member_failure(
    max_choices: Option<usize>,
    requests: Seq<RequestView>,
    i: int,
) -> Option<Seq<char>> {
    let r = requests[i];
    if max_choices matches Some(m) && r.kind == QuestionKind::Choice && r.choices.len() > m {
        Some("choice count exceeds the verified provider limit"@)
    } else if exists|j: int| 0 <= j < i && requests[j].request_key == r.request_key {
        Some("TypeSafe batch question keys must be unique"@)
    } else if r.kind != requests[0].kind || r.criterion != requests[0].criterion || r.question
        != requests[0].question || r.choices != requests[0].choices {
        Some("TypeSafe batch judgments must share one compatible question context"@)
    } else {
        None
    }
}

pub open spec fn views_of(requests: Seq<JudgmentRequest>) -> Seq<RequestView> {
    requests.map_values(|r: JudgmentRequest| r@)
}

fn json_text(s: String) -> (r: Json)
    ensures
        r@ == JsonView::Str(s@),
{
    Json::Str(s)
}

fn members_of(a: (String, Json), b: (String, Json)) -> (r: Vec<(String, Json)>)
    ensures
        r@.map_values(|m: (String, Json)| (m.0@, m.1@)) == seq![(a.0@, a.1@), (b.0@, b.1@)],
{
    let ghost (x, y) = (a, b);
    let mut v: Vec<(String, Json)> = Vec::new();
    v.push(a);
    v.push(b);
    assert(v@.map_values(|m: (String, Json)| (m.0@, m.1@)) =~= seq![(x.0@, x.1@), (y.0@, y.1@)]);
    v
}

fn noul_instruction_text(row: usize) -> (r: String)
    ensures
        r@ == noul_instructions(row as nat),
{
    let mut t = String::new();
    push_str(&mut t, "Evaluate whether state.condition holds for state.rows[");
    push_decimal(&mut t, row as u128);
    push_str(&mut t, "]. Answer with the probability that it holds.");
    assert(t@ =~= noul_instructions(row as nat));
    t
}

fn choice_instruction_text(question: &str, row: usize) -> (r: String)
    ensures
        r@ == choice_instructions(question@, row as nat),
{
    let mut t = String::new();
    push_str(&mut t, "Caller question: ");
    push_str(&mut t, question);
    push_str(
        &mut t,
        "\nSelect the single candidate label that best answers this question for state.rows[",
    );
    push_decimal(&mut t, row as u128);
    push_str(&mut t, "].");
    assert(t@ =~= choice_instructions(question@, row as nat));
    t
}

fn criteria_json(choices: &Vec<String>) -> (r: Json)
    ensures
        r@ == criteria_view(choices.deep_view()),
{
    let mut members: Vec<(String, Json)> = Vec::new();
    let mut i: usize = 0;
    while i < choices.len()
        invariant
            i <= choices@.len(),
            members@.map_values(|m: (String, Json)| (m.0@, m.1@)) == choices.deep_view().subrange(
                0,
                i as int,
            ).map_values(|l: Seq<char>| (l, JsonView::Null)),
        decreases choices@.len() - i,
    {
        let ghost before = members@;
        let label = choices[i].clone();
        assert(label@ == choices@[i as int]@);
        members.push((label, Json::Null));
        assert(members@.map_values(|m: (String, Json)| (m.0@, m.1@)) =~= before.map_values(
            |m: (String, Json)| (m.0@, m.1@),
        ).push((choices@[i as int]@, JsonView::Null)));
        assert(choices.deep_view()[i as int] == choices@[i as int]@);
        assert(choices.deep_view().subrange(0, i + 1) =~= choices.deep_view().subrange(0, i as int).push(
            choices@[i as int]@,
        ));
        assert(members@.map_values(|m: (String, Json)| (m.0@, m.1@)) =~= choices.deep_view().subrange(
            0,
            i + 1,
        ).map_values(|l: Seq<char>| (l, JsonView::Null)));
        i = i + 1;
    }
    assert(choices.deep_view().subrange(0, choices@.len() as int) =~= choices.deep_view());
    crate::json::object(members)
}

fn opt_text_or_empty(t: &Option<String>) -> (r: &str)
    ensures
        r@ == text_or_empty(t.deep_view()),
{
    match t {
        Some(s) => s.as_str(),
        None => {
            proof {
                reveal_strlit("");
            }
            ""
        },
    }
}

/// The question object for one request at row `row`.
fn question_json(request: &JudgmentRequest, question: &str, row: usize) -> (r: Json)
    ensures
        r@ == question_view(request@, question@, row as nat),
{
    match request.kind {
        QuestionKind::Noul => {
            let r = crate::json::object(
                members_of(
                    (String::from_str("instructions"), json_text(noul_instruction_text(row))),
                    (String::from_str("type"), crate::json::text("noul")),
                ),
            );
            proof {
                reveal_strlit("instructions");
                reveal_strlit("type");
                reveal_strlit("noul");
            }
            r
        },
        QuestionKind::Choice => {
            let mut members: Vec<(String, Json)> = Vec::new();
            members.push((String::from_str("criteria"), criteria_json(&request.choices)));
            members.push(
                (String::from_str("instructions"), json_text(choice_instruction_text(question, row))),
            );
            members.push((String::from_str("type"), crate::json::text("choice")));
            let r = crate::json::object(members);
            proof {
                reveal_strlit("criteria");
                reveal_strlit("instructions");
                reveal_strlit("type");
                reveal_strlit("choice");
                assert(members@.map_values(|m: (String, Json)| (m.0@, m.1@)) =~= seq![
                    ("criteria"@, criteria_view(request@.choices)),
                    ("instructions"@, JsonView::Str(choice_instructions(question@, row as nat))),
                    ("type"@, JsonView::Str("choice"@)),
                ]);
            }
            r
        },
    }
}

/// The state row of a request.
fn state_row(request: &JudgmentRequest) -> (r: Json)
    ensures
        r@ == state_row_view(request@),
{
    let value = request.state.value();
    match value {
        crate::serialize::TypedValue::Text(text) => {
            let r = Json::Str(text.clone());
            proof {
                crate::serialize::lemma_text_model(*value);
            }
            r
        },
        other => {
            let r = crate::serialize::to_json_value(other);
            proof {
                crate::serialize::lemma_text_model(*value);
            }
            r
        },
    }
}

fn state_json(condition: Option<String>, rows: Vec<Json>) -> (r: Json)
    ensures
        r@ == state_view(condition.deep_view(), rows@.map_values(|j: Json| j@)),
{
    let ghost c = condition;
    let rows_json = crate::json::array(rows);
    let r = match condition {
        Some(text) => crate::json::object(
            members_of(
                (String::from_str("condition"), json_text(text)),
                (String::from_str("rows"), rows_json),
            ),
        ),
        None => {
            let mut members: Vec<(String, Json)> = Vec::new();
            members.push((String::from_str("rows"), rows_json));
            let r = crate::json::object(members);
            proof {
                assert(members@.map_values(|m: (String, Json)| (m.0@, m.1@)) =~= seq![
                    ("rows"@, rows_json@),
                ]);
            }
            r
        },
    };
    proof {
        reveal_strlit("condition");
        reveal_strlit("rows");
    }
    r
}

fn body_json(model: &String, state: Json, questions: Json) -> (r: Json)
    ensures
        r@ == body_view(model@, state@, questions@),
{
    let ghost (sv, qv) = (state@, questions@);
    let mut members: Vec<(String, Json)> = Vec::new();
    members.push((String::from_str("model"), Json::Str(model.clone())));
    members.push((String::from_str("questions"), questions));
    members.push((String::from_str("state"), state));
    let r = crate::json::object(members);
    proof {
        reveal_strlit("model");
        reveal_strlit("questions");
        reveal_strlit("state");
        assert(members@.map_values(|m: (String, Json)| (m.0@, m.1@)) =~= seq![
            ("model"@, JsonView::Str(model@)),
            ("questions"@, qv),
            ("state"@, sv),
        ]);
    }
    r
}

impl TypesafeProvider {
    /// The document asking one judgment: a noul criterion goes into the state as its
    /// condition, choice candidates into the question object.
    pub fn build_body(&self, request: &JudgmentRequest) -> (r: Json)
        ensures
            r@ == single_body_view(self.model@, request@),
    {
        let mut rows: Vec<Json> = Vec::new();
        rows.push(state_row(request));
        let condition = match request.kind {
            QuestionKind::Noul => Some(String::from_str(opt_text_or_empty(&request.criterion))),
            QuestionKind::Choice => None,
        };
        let ghost rows_view = rows@.map_values(|j: Json| j@);
        assert(rows_view =~= seq![state_row_view(request@)]);
        let state = state_json(condition, rows);
        let question = question_json(request, opt_text_or_empty(&request.question), 0);
        let mut questions: Vec<(String, Json)> = Vec::new();
        questions.push((request.request_key.clone(), question));
        let questions_json = crate::json::object(questions);
        assert(questions@.map_values(|m: (String, Json)| (m.0@, m.1@)) =~= seq![
            (request@.request_key, question_view(request@, text_or_empty(request@.question), 0)),
        ]);
        body_json(&self.model, state, questions_json)
    }
}

/// What `build_batch_body` gives for requests with contents `rs`.
pub open spec fn batch_body_result(
    model: Seq<char>,
    max_choices: Option<usize>,
    rs: Seq<RequestView>,
    r: Result<Json, JudgmentError>,
) -> bool {
    if rs.len() == 0 {
        r matches Err(e) && e.error_kind() == ErrorKind::Configuration && e.error_text()
            == "TypeSafe batch must contain at least one judgment"@
    } else if rs.len() == 1 {
        r matches Ok(j) && j@ == single_body_view(model, rs[0])
    } else if exists|i: int|
        0 <= i < rs.len() && #[trigger] batch_member_failure(max_choices, rs, i) is Some {
        r matches Err(e) && e.error_kind() == ErrorKind::Configuration && exists|i: int|
            0 <= i < rs.len() && (forall|j: int|
                0 <= j < i ==> #[trigger] batch_member_failure(max_choices, rs, j) is None)
                && batch_member_failure(max_choices, rs, i) == Some(e.error_text())
    } else if rs[0].kind == QuestionKind::Noul && rs[0].criterion is None {
        r matches Err(e) && e.error_kind() == ErrorKind::Configuration && e.error_text()
            == "TypeSafe noul batch is missing its criterion"@
    } else if rs[0].kind == QuestionKind::Choice && rs[0].question is None {
        r matches Err(e) && e.error_kind() == ErrorKind::Configuration && e.error_text()
            == "TypeSafe choice batch is missing its question"@
    } else {
        r matches Ok(j) && j@ == batch_body_view(model, rs)
    }
}

impl TypesafeProvider {
    /// The composite document asking a batch of judgments that share one question context,
    /// row `b` of the state for the request at position `b`. A single request gets the
    /// single-judgment document.
    pub fn build_batch_body(&self, requests: &[JudgmentRequest]) -> (r: Result<Json, JudgmentError>)
        ensures
            batch_body_result(self.model@, self.max_choices, views_of(requests@), r),
    {
        let n = requests.len();
        if n == 0 {
            return Err(
                JudgmentError::configuration("TypeSafe batch must contain at least one judgment"),
            );
        }
        if n == 1 {
            return Ok(self.build_body(&requests[0]));
        }
        let ghost rs = views_of(requests@);
        let first = &requests[0];
        let mut i: usize = 0;
        while i < n
            invariant
                n == requests@.len(),
                n >= 2,
                i <= n,
                rs == views_of(requests@),
                first == requests@[0],
                forall|j: int| 0 <= j < i ==> #[trigger] batch_member_failure(self.max_choices, rs, j)
                    is None,
            decreases n - i,
        {
            let request = &requests[i];
            assert(rs[i as int] == request@);
            if let Err(error) = self.check_request_capabilities(request) {
                proof {
                    assert(batch_member_failure(self.max_choices, rs, i as int) == Some(
                        error.error_text(),
                    ));
                }
                return Err(error);
            }
            let mut j: usize = 0;
            while j < i
                invariant
                    n == requests@.len(),
                    i < n,
                    j <= i,
                    rs == views_of(requests@),
                    request == requests@[i as int],
                    forall|q: int| 0 <= q < i ==> #[trigger] batch_member_failure(self.max_choices, rs, q)
                        is None,
                    !(self.max_choices matches Some(m) && request.kind == QuestionKind::Choice
                        && request.choices@.len() > m),
                    forall|q: int| 0 <= q < j ==> requests@[q]@.request_key != request@.request_key,
                decreases i - j,
            {
                if requests[j].request_key == request.request_key {
                    assert(rs[j as int] == requests@[j as int]@);
                    assert(rs[j as int].request_key == rs[i as int].request_key);
                    let error = JudgmentError::configuration(
                        "TypeSafe batch question keys must be unique",
                    );
                    proof {
                        assert(batch_member_failure(self.max_choices, rs, i as int) == Some(
                            error.error_text(),
                        ));
                    }
                    return Err(error);
                }
                j = j + 1;
            }
            assert(!exists|q: int| 0 <= q < i && rs[q].request_key == rs[i as int].request_key) by {
                assert forall|q: int| 0 <= q < i implies rs[q].request_key != rs[i as int].request_key by {
                    assert(rs[q] == requests@[q]@);
                }
            }
            if request.kind != first.kind || !same_opt_text(&request.criterion, &first.criterion)
                || !same_opt_text(&request.question, &first.question) || !same_texts(
                &request.choices,
                &first.choices,
            ) {
                let error = JudgmentError::configuration(
                    "TypeSafe batch judgments must share one compatible question context",
                );
                proof {
                    assert(rs[0] == first@);
                    assert(batch_member_failure(self.max_choices, rs, i as int) == Some(
                        error.error_text(),
                    ));
                }
                return Err(error);
            }
            i = i + 1;
        }
        assert(!exists|i: int|
            0 <= i < rs.len() && #[trigger] batch_member_failure(self.max_choices, rs, i) is Some);
        let condition = match first.kind {
            QuestionKind::Noul => match &first.criterion {
                Some(c) => Some(c.clone()),
                None => {
                    return Err(
                        JudgmentError::configuration("TypeSafe noul batch is missing its criterion"),
                    );
                },
            },
            QuestionKind::Choice => None,
        };
        let mut rows: Vec<Json> = Vec::new();
        let mut b: usize = 0;
        while b < n
            invariant
                n == requests@.len(),
                b <= n,
                rs == views_of(requests@),
                rows@.map_values(|j: Json| j@) == rs.subrange(0, b as int).map_values(
                    |r: RequestView| state_row_view(r),
                ),
            decreases n - b,
        {
            let ghost before = rows@;
            assert(rs[b as int] == requests@[b as int]@);
            let item = state_row(&requests[b]);
            let ghost iv = item@;
            rows.push(item);
            assert(rows@.map_values(|j: Json| j@) =~= before.map_values(|j: Json| j@).push(iv));
            assert(rs.subrange(0, b + 1).map_values(|r: RequestView| state_row_view(r))
                =~= rs.subrange(0, b as int).map_values(|r: RequestView| state_row_view(r)).push(
                state_row_view(rs[b as int]),
            ));
            assert(rows@.map_values(|j: Json| j@) =~= rs.subrange(0, b + 1).map_values(
                |r: RequestView| state_row_view(r),
            ));
            b = b + 1;
        }
        assert(rs.subrange(0, n as int) =~= rs);
        let state = state_json(condition, rows);
        let mut questions: Vec<(String, Json)> = Vec::new();
        let mut b: usize = 0;
        while b < n
            invariant
                n == requests@.len(),
                n >= 2,
                b <= n,
                rs == views_of(requests@),
                first == requests@[0],
                forall|q: int| 0 <= q < n ==> #[trigger] batch_member_failure(self.max_choices, rs, q)
                    is None,
                questions@.len() == b,
                b > 0 && rs[0].kind == QuestionKind::Choice ==> rs[0].question is Some,
                forall|q: int|
                    0 <= q < b ==> (#[trigger] questions@[q]).0@ == rs[q].request_key && questions@[q].1@
                        == question_view(rs[q], text_or_empty(rs[q].question), q as nat),
            decreases n - b,
        {
            let request = &requests[b];
            assert(batch_member_failure(self.max_choices, rs, b as int) is None);
            assert(rs[b as int] == request@);
            assert(rs[0] == first@);
            let question_text = match request.kind {
                QuestionKind::Noul => opt_text_or_empty(&request.question),
                QuestionKind::Choice => match &request.question {
                    Some(q) => q.as_str(),
                    None => {
                        proof {
                            assert(!exists|i: int|
                                0 <= i < rs.len() && #[trigger] batch_member_failure(
                                    self.max_choices,
                                    rs,
                                    i,
                                ) is Some);
                        }
                        return Err(
                            JudgmentError::configuration(
                                "TypeSafe choice batch is missing its question",
                            ),
                        );
                    },
                },
            };
            let question = question_json(request, question_text, b);
            questions.push((request.request_key.clone(), question));
            b = b + 1;
        }
        proof {
            assert(rs[0] == first@);
        }
        let questions_json = crate::json::object(questions);
        assert(questions@.map_values(|m: (String, Json)| (m.0@, m.1@)) =~= Seq::new(
            rs.len(),
            |b: int|
                (rs[b].request_key, question_view(rs[b], text_or_empty(rs[b].question), b as nat)),
        ));
        Ok(body_json(&self.model, state, questions_json))
    }
}

/// What one typed answer object gives for a request.
pub enum AnswerOutcome {
    Probability(u64),
    Label(Seq<char>),
    Failure(Seq<char>),
}

/// The value field of a typed answer object whose `type` is `expected`.
pub open spec fn typed_value(answer: JsonView, expected: Seq<char>) -> Result<JsonView, Seq<char>> {
    if object_members(answer) is None {
        Err("provider answer is not a typed answer object"@)
    } else if !(get_member(answer, "type"@) matches Some(t) && text_of(t) == Some(expected)) {
        Err("provider answer type does not match the requested "@ + expected + " question"@)
    } else {
        match get_member(answer, expected) {
            Some(v) => Ok(v),
            None => Err(
                "provider "@ + expected + " answer is missing the '"@ + expected + "' field"@,
            ),
        }
    }
}

/// The outcome of the answer for `request`.
pub open spec fn answer_outcome(request: RequestView, answer: JsonView) -> AnswerOutcome {
    match request.kind {
        QuestionKind::Noul => match typed_value(answer, "noul"@) {
            Err(m) => AnswerOutcome::Failure(m),
            Ok(v) => match number_of(v) {
                None => AnswerOutcome::Failure("provider noul answer is not a number"@),
                Some(n) => if !finite_probability_bits(n.bits) {
                    AnswerOutcome::Failure("provider returned a non-finite probability"@)
                } else if !unit_interval_bits(n.bits) {
                    AnswerOutcome::Failure("provider returned a probability outside [0,1]"@)
                } else {
                    AnswerOutcome::Probability(n.bits)
                },
            },
        },
        QuestionKind::Choice => match typed_value(answer, "choice"@) {
            Err(m) => AnswerOutcome::Failure(m),
            Ok(v) => match text_of(v) {
                None => AnswerOutcome::Failure("provider choice answer is not a string"@),
                Some(l) => if is_candidate(l, request.choices) {
                    AnswerOutcome::Label(l)
                } else {
                    AnswerOutcome::Failure("provider returned a label outside the candidate set"@)
                },
            },
        },
    }
}

/// The `answers` object of a response document.
pub open spec fn answers_of(document: JsonView) -> Option<Seq<(Seq<char>, JsonView)>> {
    match get_member(document, "answers"@) {
        Some(a) => object_members(a),
        None => None,
    }
}

/// The answers name exactly the requested keys.
pub open spec fn answers_match(
    answers: Seq<(Seq<char>, JsonView)>,
    requests: Seq<JudgmentRequest>,
) -> bool {
    answers.len() == requests.len() && forall|i: int|
        0 <= i < requests.len() ==> #[trigger] crate::json::member_value(
            answers,
            requests[i].request_key@,
        ) is Some
}

/// The outcome for request `i`.
pub open spec fn outcome_at(
    answers: Seq<(Seq<char>, JsonView)>,
    requests: Seq<JudgmentRequest>,
    i: int,
) -> AnswerOutcome {
    answer_outcome(
        requests[i]@,
        crate::json::member_value(answers, requests[i].request_key@).unwrap(),
    )
}

/// A result matches an outcome.
pub open spec fn result_is(result: JudgmentResult, outcome: AnswerOutcome) -> bool {
    match (result, outcome) {
        (JudgmentResult::Noul(p), AnswerOutcome::Probability(q)) => p == q,
        (JudgmentResult::Choice(l), AnswerOutcome::Label(m)) => l@ == m,
        _ => false,
    }
}

/// The text of member `key`.
pub open spec fn text_member(document: JsonView, key: Seq<char>) -> Option<Seq<char>> {
    match get_member(document, key) {
        Some(v) => text_of(v),
        None => None,
    }
}

/// The unsigned integer of member `key`.
pub open spec fn unsigned_member(document: JsonView, key: Seq<char>) -> Option<u64> {
    match get_member(document, key) {
        Some(v) => match number_of(v) {
            Some(n) => n.unsigned,
            None => None,
        },
        None => None,
    }
}

fn text_member_of(document: &Json, key: &str) -> (r: Option<String>)
    ensures
        r.deep_view() == text_member(document@, key@),
{
    match document.get(key) {
        Some(v) => match v.as_str() {
            Some(s) => Some(String::from_str(s)),
            None => None,
        },
        None => None,
    }
}

fn unsigned_member_of(document: &Json, key: &str) -> (r: Option<u64>)
    ensures
        r == unsigned_member(document@, key@),
{
    match document.get(key) {
        Some(v) => match v.as_number() {
            Some(n) => n.unsigned,
            None => None,
        },
        None => None,
    }
}

/// The value field of a typed answer object.
fn typed_answer_value<'a>(answer: &'a Json, expected_type: &str) -> (r: Result<&'a Json, JudgmentError>)
    ensures
        match r {
            Ok(v) => typed_value(answer@, expected_type@) == Ok::<JsonView, Seq<char>>(v@),
            Err(e) => e.error_kind() == ErrorKind::InvalidResponse && typed_value(
                answer@,
                expected_type@,
            ) == Err::<JsonView, Seq<char>>(e.error_text()),
        },
{
    if answer.object_len().is_none() {
        return Err(JudgmentError::invalid_response("provider answer is not a typed answer object"));
    }
    let type_matches = match answer.get("type") {
        Some(t) => match t.as_str() {
            Some(s) => same_text(s, expected_type),
            None => false,
        },
        None => false,
    };
    if !type_matches {
        let mut message = String::new();
        push_str(&mut message, "provider answer type does not match the requested ");
        push_str(&mut message, expected_type);
        push_str(&mut message, " question");
        assert(message@ =~= "provider answer type does not match the requested "@ + expected_type@
            + " question"@);
        return Err(JudgmentError::with_message(ErrorKind::InvalidResponse, message));
    }
    match answer.get(expected_type) {
        Some(v) => Ok(v),
        None => {
            let mut message = String::new();
            push_str(&mut message, "provider ");
            push_str(&mut message, expected_type);
            push_str(&mut message, " answer is missing the '");
            push_str(&mut message, expected_type);
            push_str(&mut message, "' field");
            assert(message@ =~= "provider "@ + expected_type@ + " answer is missing the '"@
                + expected_type@ + "' field"@);
            Err(JudgmentError::with_message(ErrorKind::InvalidResponse, message))
        },
    }
}

/// The result the answer object gives for `request`.
fn answer_result(request: &JudgmentRequest, answer: &Json) -> (r: Result<JudgmentResult, JudgmentError>)
    ensures
        match r {
            Ok(result) => result_is(result, answer_outcome(request@, answer@)),
            Err(e) => e.error_kind() == ErrorKind::InvalidResponse && answer_outcome(
                request@,
                answer@,
            ) == AnswerOutcome::Failure(e.error_text()),
        },
{
    match request.kind {
        QuestionKind::Noul => {
            let value = typed_answer_value(answer, "noul")?;
            let number = match value.as_number() {
                Some(n) => n,
                None => {
                    return Err(JudgmentError::invalid_response("provider noul answer is not a number"));
                },
            };
            let p = validate_probability(number.bits)?;
            Ok(JudgmentResult::Noul(p))
        },
        QuestionKind::Choice => {
            let value = typed_answer_value(answer, "choice")?;
            let label = match value.as_str() {
                Some(l) => l,
                None => {
                    return Err(
                        JudgmentError::invalid_response("provider choice answer is not a string"),
                    );
                },
            };
            let l = validate_label(label, request.choices.as_slice())?;
            Ok(JudgmentResult::Choice(l))
        },
    }
}

proof fn lemma_keyed_answers_valid(requests: Seq<JudgmentRequest>, answers: Seq<ProviderAnswer>)
    requires
        keys_distinct(request_keys(requests)),
        answers.len() == requests.len(),
        forall|i: int|
            0 <= i < requests.len() ==> (#[trigger] answers[i]).request_key@ == requests[i].request_key@
                && result_answers(requests[i]@, answers[i].result),
    ensures
        batch_valid(requests, answers),
{
    assert forall|i: int| 0 <= i < answers.len() implies crate::provider::answer_acceptable(
        requests,
        answers,
        i,
    ) by {
        let key = answers[i].request_key@;
        assert(request_keys(requests)[i] == key);
        assert(!answer_keys(answers).subrange(0, i).contains(key)) by {
            if answer_keys(answers).subrange(0, i).contains(key) {
                let q = choose|q: int| 0 <= q < i && answer_keys(answers).subrange(0, i)[q] == key;
                assert(answers[q].request_key@ == requests[q].request_key@);
                assert(request_keys(requests)[q] == key);
            }
        }
        assert(crate::provider::has_request_key(requests, key));
        assert forall|m: int| 0 <= m < i implies requests[m].request_key@ != key by {
            assert(request_keys(requests)[m] == requests[m].request_key@);
        }
        let k = first_request_with_key(requests, key);
        assert(0 <= k < requests.len() && requests[k].request_key@ == key);
        if k != i {
            assert(request_keys(requests)[k] == requests[k].request_key@);
        }
    }
}

impl TypesafeProvider {
    /// Parses and strictly validates a response document (`None` when the body was not JSON):
    /// the `answers` object must name exactly the requested keys, each answer must be a typed
    /// object of the requested type with an in-domain value; any ambiguity fails.
    pub fn parse_batch_response(
        &self,
        requests: &[JudgmentRequest],
        document: Option<&Json>,
    ) -> (r: Result<ProviderBatchResult, JudgmentError>)
        ensures
            match document {
                None => r matches Err(e) && e.error_kind() == ErrorKind::InvalidResponse
                    && e.error_text() == "provider returned a body that is not valid JSON"@,
                Some(d) => match answers_of(d@) {
                    None => r matches Err(e) && e.error_kind() == ErrorKind::InvalidResponse
                        && e.error_text() == "provider response is missing the 'answers' object"@,
                    Some(answers) => if !answers_match(answers, requests@) {
                        r matches Err(e) && e.error_kind() == ErrorKind::InvalidResponse
                            && e.error_text()
                            == "provider response answers do not match the requested question keys"@
                    } else if exists|i: int|
                        0 <= i < requests@.len() && #[trigger] outcome_at(answers, requests@, i)
                            is Failure {
                        r matches Err(e) && e.error_kind() == ErrorKind::InvalidResponse
                            && exists|i: int|
                            0 <= i < requests@.len() && (forall|j: int|
                                0 <= j < i ==> !(#[trigger] outcome_at(answers, requests@, j)
                                    is Failure)) && outcome_at(answers, requests@, i)
                                == AnswerOutcome::Failure(e.error_text())
                    } else if !keys_distinct(request_keys(requests@)) {
                        r matches Err(e) && e.error_kind() == ErrorKind::InvalidResponse
                            && e.error_text() == "provider batch contains duplicate request keys"@
                    } else {
                        r matches Ok(response) && {
                            &&& response.answers@.len() == requests@.len()
                            &&& forall|i: int|
                                0 <= i < requests@.len() ==> (#[trigger] response.answers@[i]).request_key@
                                    == requests@[i].request_key@ && result_is(
                                    response.answers@[i].result,
                                    outcome_at(answers, requests@, i),
                                )
                            &&& response.metadata.requested_model.deep_view() == Some(self.model@)
                            &&& response.metadata.effective_model.deep_view() == text_member(
                                d@,
                                "model"@,
                            )
                            &&& response.metadata.usage == match get_member(d@, "usage"@) {
                                Some(u) => if object_members(u) is Some {
                                    Some(
                                        ProviderUsage {
                                            input_tokens: unsigned_member(u, "input_tokens"@),
                                            output_tokens: unsigned_member(u, "output_tokens"@),
                                        },
                                    )
                                } else {
                                    None
                                },
                                None => None,
                            }
                            &&& response.metadata.inference_time_ms is None
                            &&& response.metadata.serialization_time_ns is None
                            &&& response.metadata.external_roundtrip_ns is None
                        }
                    },
                },
            },
    {
        let doc = match document {
            Some(d) => d,
            None => {
                return Err(
                    JudgmentError::invalid_response("provider returned a body that is not valid JSON"),
                );
            },
        };
        let answers = match doc.get("answers") {
            Some(a) => match a.object_len() {
                Some(_) => a,
                None => {
                    return Err(
                        JudgmentError::invalid_response(
                            "provider response is missing the 'answers' object",
                        ),
                    );
                },
            },
            None => {
                return Err(
                    JudgmentError::invalid_response(
                        "provider response is missing the 'answers' object",
                    ),
                );
            },
        };
        let ghost members = object_members(answers@).unwrap();
        assert(answers_of(doc@) == Some(members));
        let n = requests.len();
        let count = answers.object_len().unwrap();
        let mut all_present = count == n;
        let mut i: usize = 0;
        while i < n && all_present
            invariant
                n == requests@.len(),
                i <= n,
                document == Some(doc),
                answers_of(doc@) == Some(members),
                object_members(answers@) == Some(members),
                all_present == (count == n && forall|q: int|
                    0 <= q < i ==> #[trigger] crate::json::member_value(
                        members,
                        requests@[q].request_key@,
                    ) is Some),
                count == members.len(),
            decreases n - i,
        {
            if answers.get(requests[i].request_key.as_str()).is_none() {
                all_present = false;
            }
            i = i + 1;
        }
        if !all_present {
            proof {
                if answers_match(members, requests@) {
                    assert(count == n);
                    let q = choose|q: int|
                        0 <= q < i && !(#[trigger] crate::json::member_value(
                            members,
                            requests@[q].request_key@,
                        ) is Some);
                }
            }
            return Err(
                JudgmentError::invalid_response(
                    "provider response answers do not match the requested question keys",
                ),
            );
        }
        assert(answers_match(members, requests@));
        let usage = match doc.get("usage") {
            Some(u) => match u.object_len() {
                Some(_) => Some(
                    ProviderUsage {
                        input_tokens: unsigned_member_of(u, "input_tokens"),
                        output_tokens: unsigned_member_of(u, "output_tokens"),
                    },
                ),
                None => None,
            },
            None => None,
        };
        let mut response = ProviderBatchResult {
            answers: Vec::new(),
            metadata: ProviderMetadata {
                requested_model: Some(self.model.clone()),
                effective_model: text_member_of(doc, "model"),
                usage,
                inference_time_ms: None,
                serialization_time_ns: None,
                external_roundtrip_ns: None,
            },
        };
        let mut i: usize = 0;
        while i < n
            invariant
                n == requests@.len(),
                i <= n,
                document == Some(doc),
                answers_of(doc@) == Some(members),
                object_members(answers@) == Some(members),
                answers_match(members, requests@),
                response.answers@.len() == i,
                forall|q: int| 0 <= q < i ==> !(#[trigger] outcome_at(members, requests@, q) is Failure),
                forall|q: int|
                    0 <= q < i ==> (#[trigger] response.answers@[q]).request_key@
                        == requests@[q].request_key@ && result_is(
                        response.answers@[q].result,
                        outcome_at(members, requests@, q),
                    ),
                response.metadata.requested_model.deep_view() == Some(self.model@),
                response.metadata.effective_model.deep_view() == text_member(doc@, "model"@),
                response.metadata.usage == usage,
                response.metadata.inference_time_ms is None,
                response.metadata.serialization_time_ns is None,
                response.metadata.external_roundtrip_ns is None,
            decreases n - i,
        {
            let request = &requests[i];
            assert(crate::json::member_value(members, requests@[i as int].request_key@) is Some);
            let answer = match answers.get(request.request_key.as_str()) {
                Some(a) => a,
                None => {
                    return Err(
                        JudgmentError::invalid_response(
                            "provider response answers do not match the requested question keys",
                        ),
                    );
                },
            };
            let result = match answer_result(request, answer) {
                Ok(result) => result,
                Err(error) => {
                    proof {
                        assert(outcome_at(members, requests@, i as int) == AnswerOutcome::Failure(
                            error.error_text(),
                        ));
                    }
                    return Err(error);
                },
            };
            response.answers.push(ProviderAnswer { request_key: request.request_key.clone(), result });
            i = i + 1;
        }
        proof {
            assert(!exists|i: int|
                0 <= i < requests@.len() && #[trigger] outcome_at(members, requests@, i) is Failure);
            if keys_distinct(request_keys(requests@)) {
                assert forall|q: int| 0 <= q < requests@.len() implies (#[trigger] response.answers@[q]).request_key@
                    == requests@[q].request_key@ && result_answers(
                    requests@[q]@,
                    response.answers@[q].result,
                ) by {
                    let o = outcome_at(members, requests@, q);
                    assert(!(o is Failure));
                    assert(result_is(response.answers@[q].result, o));
                }
                lemma_keyed_answers_valid(requests@, response.answers@);
            }
        }
        if let Err(error) = validate_batch_result(requests, &response) {
            return Err(error);
        }
        Ok(response)
    }

    /// The result of a single-judgment response; see `parse_batch_response`.
    #[verifier::spinoff_prover]
    #[verifier::rlimit(60)]
    pub fn parse_response(&self, request: &JudgmentRequest, document: Option<&Json>) -> (r: Result<
        JudgmentResult,
        JudgmentError,
    >)
        ensures
            match single_response(
                request@,
                match document {
                    Some(d) => Some(d@),
                    None => None,
                },
            ) {
                Err(m) => r matches Err(e) && e.error_kind() == ErrorKind::InvalidResponse
                    && e.error_text() == m,
                Ok(outcome) => r matches Ok(result) && result_is(result, outcome),
            },
            r matches Ok(result) ==> result_answers(request@, result),
    {
        let single = self.single(request);
        let response = match self.parse_batch_response(single.as_slice(), document) {
            Ok(response) => response,
            Err(error) => {
                return Err(error);
            },
        };
        let result = response.answers[0].result.duplicate();
        proof {
            assert(single@[0].request_key@ == request.request_key@);
            assert(batch_valid(single@, response.answers@));
            assert(crate::provider::answer_acceptable(single@, response.answers@, 0));
        }
        Ok(result)
    }

    fn single(&self, request: &JudgmentRequest) -> (r: Vec<JudgmentRequest>)
        ensures
            r@.len() == 1,
            r@[0]@ == request@,
    {
        let mut out: Vec<JudgmentRequest> = Vec::new();
        out.push(request.with_key(request.request_key.clone()));
        out
    }
}

/// What a single-judgment response document gives: the outcome of the one answer, or the
/// text of the error.
pub open spec fn single_response(request: crate::judgment::RequestView, document: Option<JsonView>) -> Result<
    AnswerOutcome,
    Seq<char>,
> {
    match document {
        None => Err("provider returned a body that is not valid JSON"@),
        Some(d) => match answers_of(d) {
            None => Err("provider response is missing the 'answers' object"@),
            Some(answers) => if !(answers.len() == 1 && crate::json::member_value(
                answers,
                request.request_key,
            ) is Some) {
                Err("provider response answers do not match the requested question keys"@)
            } else {
                match answer_outcome(
                    request,
                    crate::json::member_value(answers, request.request_key).unwrap(),
                ) {
                    AnswerOutcome::Failure(m) => Err(m),
                    outcome => Ok(outcome),
                }
            },
        },
    }
}

/// Whether `s` equals `word` up to ASCII case.
fn eq_ignore_ascii_case(s: &str, word: &str) -> (r: bool)
    ensures
        r == (crate::provider::ascii_lower(s@) == crate::provider::ascii_lower(word@)),
{
    let n = s.unicode_len();
    let m = word.unicode_len();
    if n != m {
        assert(crate::provider::ascii_lower(s@).len() == n);
        assert(crate::provider::ascii_lower(word@).len() == m);
        return false;
    }
    let mut i: usize = 0;
    while i < n
        invariant
            n == s@.len(),
            m == word@.len(),
            n == m,
            i <= n,
            forall|k: int|
                0 <= k < i ==> crate::provider::lower_char(#[trigger] s@[k])
                    == crate::provider::lower_char(word@[k]),
        decreases n - i,
    {
        let a = lower(s.get_char(i));
        let b = lower(word.get_char(i));
        if a != b {
            assert(crate::provider::ascii_lower(s@)[i as int] != crate::provider::ascii_lower(word@)[i as int]);
            return false;
        }
        i = i + 1;
    }
    assert(crate::provider::ascii_lower(s@) =~= crate::provider::ascii_lower(word@));
    true
}

fn lower(c: char) -> (r: char)
    ensures
        r == crate::provider::lower_char(c),
{
    if 'A' <= c && c <= 'Z' {
        crate::provider::ascii_lower_letter(c)
    } else {
        c
    }
}

/// The message for a non-success HTTP status: only the status and, for authentication
/// failures, the fixed hint; never the remote body.
pub open spec fn status_message(status: u16, auth_hint: Seq<char>) -> Seq<char> {
    if status == 401 || status == 403 {
        "provider returned HTTP "@ + decimal(status as nat) + " ("@ + auth_hint + ")."@
    } else {
        "provider returned HTTP "@ + decimal(status as nat)
    }
}

impl TypesafeProvider {
    /// The error for an HTTP status outside 200..300, if it is one.
    pub fn status_error(&self, status: u16) -> (r: Option<JudgmentError>)
        ensures
            r is None <==> 200 <= status < 300,
            r matches Some(e) ==> e.error_kind() == ErrorKind::Provider && e.error_text()
                == status_message(status, self.auth_hint@),
    {
        if 200 <= status && status < 300 {
            return None;
        }
        let mut message = String::new();
        push_str(&mut message, "provider returned HTTP ");
        push_decimal(&mut message, status as u128);
        if status == 401 || status == 403 {
            push_str(&mut message, " (");
            push_str(&mut message, self.auth_hint);
            push_str(&mut message, ").");
        }
        assert(message@ =~= status_message(status, self.auth_hint@));
        Some(JudgmentError::with_message(ErrorKind::Provider, message))
    }

    /// A self-hosted service that reports a truncated state gives no result.
    pub fn truncation_error(&self, truncated_header: Option<&str>) -> (r: Option<JudgmentError>)
        ensures
            r is Some <==> (self.reject_truncated_header && (truncated_header matches Some(v)
                && crate::provider::ascii_lower(v@) == "true"@)),
            r matches Some(e) ==> e.error_kind() == ErrorKind::Provider && e.error_text()
                == "local-jev truncated the state; refusing a result based on partial input"@,
    {
        if !self.reject_truncated_header {
            return None;
        }
        match truncated_header {
            Some(v) => {
                let t = eq_ignore_ascii_case(v, "true");
                proof {
                    reveal_strlit("true");
                    assert(crate::provider::ascii_lower("true"@) =~= "true"@);
                }
                if t {
                    Some(
                        JudgmentError::provider(
                            "local-jev truncated the state; refusing a result based on partial input",
                        ),
                    )
                } else {
                    None
                }
            },
            None => None,
        }
    }

    /// Completes a parsed response: a batch must come from the verified batch model, and the
    /// client-side timings are recorded.
    pub fn finish_response(
        &self,
        request_count: usize,
        response: ProviderBatchResult,
        serialization_time_ns: u64,
        external_roundtrip_ns: u64,
    ) -> (r: Result<ProviderBatchResult, JudgmentError>)
        ensures
            request_count > 1 && response.metadata.effective_model.deep_view() != Some(
                VERIFIED_BATCH_EFFECTIVE_MODEL@,
            ) ==> (r matches Err(e) && e.error_kind() == ErrorKind::Provider && e.error_text()
                == "provider model does not match the verified multi-state batch model"@),
            !(request_count > 1 && response.metadata.effective_model.deep_view() != Some(
                VERIFIED_BATCH_EFFECTIVE_MODEL@,
            )) ==> (r matches Ok(done) && done.answers == response.answers
                && done.metadata == ProviderMetadata {
                serialization_time_ns: Some(serialization_time_ns),
                external_roundtrip_ns: Some(external_roundtrip_ns),
                ..response.metadata
            }),
    {
        let mut response = response;
        if request_count > 1 {
            let pinned = Some(String::from_str(VERIFIED_BATCH_EFFECTIVE_MODEL));
            if !same_opt_text(&response.metadata.effective_model, &pinned) {
                return Err(
                    JudgmentError::provider(
                        "provider model does not match the verified multi-state batch model",
                    ),
                );
            }
        }
        response.metadata.serialization_time_ns = Some(serialization_time_ns);
        response.metadata.external_roundtrip_ns = Some(external_roundtrip_ns);
        Ok(response)
    }
}


impl TypesafeProvider {
    /// The document to send for `requests`: one request is checked against the label limit
    /// and asked alone; several need verified cross-state batching and one shared question.
    pub fn prepare_request(&self, requests: &[JudgmentRequest]) -> (r: Result<Json, JudgmentError>)
        ensures
            requests@.len() == 1 ==> if self.max_choices matches Some(m) && requests@[0].kind
                == QuestionKind::Choice && requests@[0].choices@.len() > m {
                r matches Err(e) && e.error_kind() == ErrorKind::Configuration && e.error_text()
                    == "choice count exceeds the verified provider limit"@
            } else {
                r matches Ok(j) && j@ == single_body_view(self.model@, requests@[0]@)
            },
            requests@.len() != 1 ==> if self.multi_state_batch != CapabilityStatus::Verified {
                r matches Err(e) && e.error_kind() == ErrorKind::Configuration && e.error_text()
                    == (if self.multi_state_batch == CapabilityStatus::Unknown {
                    "provider multi-state batch capability is not verified"@
                } else {
                    "provider does not support cross-state batch requests"@
                })
            } else {
                batch_body_result(self.model@, self.max_choices, views_of(requests@), r)
            },
    {
        if requests.len() == 1 {
            self.check_request_capabilities(&requests[0])?;
            return Ok(self.build_body(&requests[0]));
        }
        self.check_multi_state()?;
        self.build_batch_body(requests)
    }

    /// The error a reply's status line and headers already decide: a status outside 200..300
    /// first, then a self-hosted service's truncation flag. `None`: read the body.
    pub fn reply_head_error(&self, status: u16, truncated_header: Option<&str>) -> (r: Option<
        JudgmentError,
    >)
        ensures
            !(200 <= status < 300) ==> (r matches Some(e) && e.error_kind() == ErrorKind::Provider
                && e.error_text() == status_message(status, self.auth_hint@)),
            200 <= status < 300 ==> (r is Some <==> (self.reject_truncated_header && (
            truncated_header matches Some(v) && crate::provider::ascii_lower(v@) == "true"@))),
            200 <= status < 300 ==> (r matches Some(e) ==> e.error_kind() == ErrorKind::Provider
                && e.error_text()
                == "local-jev truncated the state; refusing a result based on partial input"@),
    {
        match self.status_error(status) {
            Some(error) => Some(error),
            None => self.truncation_error(truncated_header),
        }
    }
}

/// The self-hosted local-jev service: the TypeSafe protocol with cross-state batching
/// unsupported, at most 255 labels, truncated states refused and no cross-query caching.
pub struct LocalJevProvider(pub TypesafeProvider);

impl LocalJevProvider {
    pub fn new(
        api_url: String,
        model: String,
        timeout_ms: u64,
        max_response_bytes: u64,
        credential: Option<String>,
    ) -> (r: Self)
        ensures
            r.0.api_url == api_url,
            r.0.model == model,
            r.0.timeout_ms == timeout_ms,
            r.0.max_response_bytes == max_response_bytes,
            r.0.credential == credential,
            r.0.protocol_version@ == LOCAL_JEV_PROTOCOL@,
            r.0.multi_state_batch == CapabilityStatus::Unsupported,
            r.0.max_choices == Some(255usize),
            r.0.reject_truncated_header,
            r.0.auth_hint@ == LOCAL_JEV_AUTH_HINT@,
            !r.0.cacheable_model_aliases,
    {
        LocalJevProvider(
            TypesafeProvider::new_localjev(api_url, model, timeout_ms, max_response_bytes, credential),
        )
    }

    pub fn capabilities(&self) -> (r: ProviderCapabilities)
        ensures
            r.protocol_version@ == self.0.protocol_version@,
            r.noul == CapabilityStatus::Verified,
            r.choice == CapabilityStatus::Verified,
            r.multi_state_batch == self.0.multi_state_batch,
            r.max_batch_judgments is None,
            r.max_choices == self.0.max_choices,
    {
        self.0.capabilities()
    }

    /// Never a cross-query cache identity for a service built by `new`.
    pub fn cache_model_identity(&self, requested_model: &str) -> (r: Option<String>)
        ensures
            r is Some <==> self.0.cacheable_model_aliases && versioned_model(requested_model@),
            r matches Some(m) ==> m@ == requested_model@,
    {
        self.0.cache_model_identity(requested_model)
    }
}

} // verus!
