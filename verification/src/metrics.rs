//! Versioned, redacted execution profile aggregation.
//!
//! The counts of one query are updated only for the query they belong to; every counter
//! saturates. The rendered report (JSON, milliseconds, cost amounts) is the host's.

use vstd::prelude::*;

use crate::provider::ProviderMetadata;
use crate::text::{is_blank, is_blank_text};

verus! {

#[derive(Debug, Clone, PartialEq, Eq)]
pub struct QueryCounts {
    pub input_rows: u64,
    pub null_rows: u64,
    pub valid_rows: u64,
    pub unique_judgments: u64,
    pub deduplicated_rows: u64,
    pub cache_hit_judgments: u64,
    pub provider_invocations: u64,
    pub external_requests: u64,
    pub batched_requests: u64,
    /// Request count per batch size, one entry per size.
    pub batch_size_histogram: Vec<(usize, u64)>,
    pub failed_requests: u64,
    /// Effective models reported by the service, each once.
    pub reported_models: Vec<String>,
    pub input_tokens: Option<u64>,
    pub output_tokens: Option<u64>,
    pub usage_response_count: u64,
    pub usage_missing_count: u64,
    pub serialization_time_ns: u128,
    pub serialization_observed_count: u64,
    pub external_roundtrip_ns: u128,
    pub external_roundtrip_count: u64,
    pub inference_time_ms: u128,
    pub inference_observed_count: u64,
    pub inference_missing_count: u64,
}

/// `a + b`, saturating at `max`.
pub open spec fn sat(a: int, b: int, max: int) -> int {
    if a + b > max {
        max
    } else {
        a + b
    }
}

pub open spec fn inc(a: u64) -> u64 {
    sat(a as int, 1, u64::MAX as int) as u64
}

pub open spec fn add64(a: u64, b: int) -> u64 {
    sat(a as int, b, u64::MAX as int) as u64
}

pub open spec fn add128(a: u128, b: int) -> u128 {
    sat(a as int, b, u128::MAX as int) as u128
}

impl QueryCounts {
    /// All counts zero, nothing reported.
    pub open spec fn is_zero(&self) -> bool {
        &&& self.input_rows == 0
        &&& self.null_rows == 0
        &&& self.valid_rows == 0
        &&& self.unique_judgments == 0
        &&& self.deduplicated_rows == 0
        &&& self.cache_hit_judgments == 0
        &&& self.provider_invocations == 0
        &&& self.external_requests == 0
        &&& self.batched_requests == 0
        &&& self.batch_size_histogram@.len() == 0
        &&& self.failed_requests == 0
        &&& self.reported_models@.len() == 0
        &&& self.input_tokens is None
        &&& self.output_tokens is None
        &&& self.usage_response_count == 0
        &&& self.usage_missing_count == 0
        &&& self.serialization_time_ns == 0
        &&& self.serialization_observed_count == 0
        &&& self.external_roundtrip_ns == 0
        &&& self.external_roundtrip_count == 0
        &&& self.inference_time_ms == 0
        &&& self.inference_observed_count == 0
        &&& self.inference_missing_count == 0
    }
}

impl Default for QueryCounts {
    fn default() -> (r: Self)
        ensures
            r.is_zero(),
    {
        QueryCounts {
            input_rows: 0,
            null_rows: 0,
            valid_rows: 0,
            unique_judgments: 0,
            deduplicated_rows: 0,
            cache_hit_judgments: 0,
            provider_invocations: 0,
            external_requests: 0,
            batched_requests: 0,
            batch_size_histogram: Vec::new(),
            failed_requests: 0,
            reported_models: Vec::new(),
            input_tokens: None,
            output_tokens: None,
            usage_response_count: 0,
            usage_missing_count: 0,
            serialization_time_ns: 0,
            serialization_observed_count: 0,
            external_roundtrip_ns: 0,
            external_roundtrip_count: 0,
            inference_time_ms: 0,
            inference_observed_count: 0,
            inference_missing_count: 0,
        }
    }
}

/// The histogram after one more request of `size`.
pub open spec fn histogram_counted(h: Seq<(usize, u64)>, size: usize) -> Seq<(usize, u64)> {
    if exists|i: int| 0 <= i < h.len() && h[i].0 == size {
        let i = choose|i: int|
            0 <= i < h.len() && h[i].0 == size && forall|j: int| 0 <= j < i ==> h[j].0 != size;
        h.update(i, (size, inc(h[i].1)))
    } else {
        h.push((size, 1u64))
    }
}

/// The model list after `model` was reported.
pub open spec fn models_with(models: Seq<Seq<char>>, model: Seq<char>) -> Seq<Seq<char>> {
    if models.contains(model) {
        models
    } else {
        models.push(model)
    }
}

fn count_batch_size(h: &mut Vec<(usize, u64)>, size: usize)
    ensures
        final(h)@ == histogram_counted(old(h)@, size),
{
    let mut i: usize = 0;
    while i < h.len()
        invariant
            i <= h@.len(),
            h@ == old(h)@,
            forall|j: int| 0 <= j < i ==> (#[trigger] h@[j]).0 != size,
        decreases h@.len() - i,
    {
        if h[i].0 == size {
            let count = h[i].1.saturating_add(1);
            proof {
                let k = choose|k: int|
                    0 <= k < old(h)@.len() && old(h)@[k].0 == size && forall|j: int|
                        0 <= j < k ==> old(h)@[j].0 != size;
                assert(k == i) by {
                    if k < i {
                        assert(old(h)@[k].0 != size);
                    }
                    if k > i {
                        assert(old(h)@[i as int].0 != size);
                    }
                }
            }
            h.set(i, (size, count));
            return;
        }
        i = i + 1;
    }
    h.push((size, 1));
}

fn add_model(models: &mut Vec<String>, model: &str)
    ensures
        final(models).deep_view() == models_with(old(models).deep_view(), model@),
{
    let candidate = String::from_str(model);
    let mut i: usize = 0;
    while i < models.len()
        invariant
            i <= models@.len(),
            models@ == old(models)@,
            candidate@ == model@,
            forall|j: int| 0 <= j < i ==> (#[trigger] models@[j])@ != model@,
        decreases models@.len() - i,
    {
        if models[i] == candidate {
            assert(old(models).deep_view()[i as int] == model@);
            return;
        }
        i = i + 1;
    }
    assert(!old(models).deep_view().contains(model@)) by {
        if old(models).deep_view().contains(model@) {
            let j = choose|j: int| 0 <= j < old(models).deep_view().len() && old(models).deep_view()[j] == model@;
            assert(models@[j]@ == model@);
        }
    }
    models.push(candidate);
    assert(models.deep_view() =~= old(models).deep_view().push(model@));
}

/// The counts, and the profile context, of the query that is running.
#[derive(Debug, Clone)]
pub struct QueryRecord {
    pub query_id: u64,
    pub counts: QueryCounts,
    pub provider: Option<String>,
    pub requested_model: Option<String>,
    pub detailed_timing: bool,
}

/// The profile context is recorded for the running query (see `QueryRecord::record_profile_context`).
pub open spec fn profile_context_recorded(
    before: QueryRecord,
    after: QueryRecord,
    query_scope: u64,
    provider: Seq<char>,
    requested_model: Seq<char>,
    detailed_timing: bool,
) -> bool {
    &&& before.query_id != query_scope ==> after == before
    &&& before.query_id == query_scope ==> {
            &&& after.query_id == before.query_id
            &&& after.counts == before.counts
            &&& after.provider.deep_view() == (match before.provider {
                Some(p) => Some(p@),
                None => Some(provider),
            })
            &&& after.requested_model.deep_view() == (match before.requested_model {
                Some(m) => Some(m@),
                None => Some(requested_model),
            })
            &&& after.detailed_timing == (before.detailed_timing || detailed_timing)
        }
}

/// The rows of an optimized chunk are counted for the running query.
pub open spec fn optimized_rows_recorded(
    before: QueryRecord,
    after: QueryRecord,
    query_scope: u64,
    input_rows: usize,
    null_rows: usize,
    valid_rows: usize,
    unique_judgments: usize,
) -> bool {
    &&& before.query_id != query_scope ==> after == before
    &&& before.query_id == query_scope ==> after == (QueryRecord {
            counts: QueryCounts {
                input_rows: add64(before.counts.input_rows, input_rows as int),
                null_rows: add64(before.counts.null_rows, null_rows as int),
                valid_rows: add64(before.counts.valid_rows, valid_rows as int),
                deduplicated_rows: add64(
                    before.counts.deduplicated_rows,
                    if valid_rows > unique_judgments {
                        valid_rows - unique_judgments
                    } else {
                        0
                    },
                ),
                ..before.counts
            },
            ..before
        })
}

/// A row-mode input row is counted for the running query.
pub open spec fn row_input_recorded(
    before: QueryRecord,
    after: QueryRecord,
    query_scope: u64,
) -> bool {
    &&& before.query_id != query_scope ==> after == before
    &&& before.query_id == query_scope ==> after == (QueryRecord {
            counts: QueryCounts { input_rows: inc(before.counts.input_rows), ..before.counts },
            ..before
        })
}

/// A row-mode result is counted for the running query.
pub open spec fn row_result_recorded(
    before: QueryRecord,
    after: QueryRecord,
    query_scope: u64,
    is_null: bool,
) -> bool {
    &&& before.query_id != query_scope ==> after == before
    &&& before.query_id == query_scope && is_null ==> after == (QueryRecord {
            counts: QueryCounts { null_rows: inc(before.counts.null_rows), ..before.counts },
            ..before
        })
    &&& before.query_id == query_scope && !is_null ==> after == (QueryRecord {
            counts: QueryCounts {
                valid_rows: inc(before.counts.valid_rows),
                unique_judgments: inc(before.counts.unique_judgments),
                ..before.counts
            },
            ..before
        })
}

/// A claimed judgment is counted for the running query.
pub open spec fn claim_recorded(
    before: QueryRecord,
    after: QueryRecord,
    query_scope: u64,
    shared: bool,
) -> bool {
    &&& before.query_id != query_scope ==> after == before
    &&& before.query_id == query_scope && shared ==> after == (QueryRecord {
            counts: QueryCounts {
                deduplicated_rows: inc(before.counts.deduplicated_rows),
                ..before.counts
            },
            ..before
        })
    &&& before.query_id == query_scope && !shared ==> after == (QueryRecord {
            counts: QueryCounts {
                unique_judgments: inc(before.counts.unique_judgments),
                ..before.counts
            },
            ..before
        })
}

/// A cache hit is counted for the running query.
pub open spec fn cache_hit_recorded(
    before: QueryRecord,
    after: QueryRecord,
    query_scope: u64,
) -> bool {
    &&& before.query_id != query_scope ==> after == before
    &&& before.query_id == query_scope ==> after == (QueryRecord {
            counts: QueryCounts {
                cache_hit_judgments: inc(before.counts.cache_hit_judgments),
                ..before.counts
            },
            ..before
        })
}

/// A provider invocation is counted for the running query.
pub open spec fn provider_attempt_recorded(
    before: QueryRecord,
    after: QueryRecord,
    query_scope: u64,
    batch_size: usize,
    external: bool,
) -> bool {
    &&& before.query_id != query_scope ==> after == before
    &&& before.query_id == query_scope && !external ==> after == (QueryRecord {
            counts: QueryCounts {
                provider_invocations: inc(before.counts.provider_invocations),
                ..before.counts
            },
            ..before
        })
    &&& before.query_id == query_scope && external ==> after == (QueryRecord {
            counts: QueryCounts {
                provider_invocations: inc(before.counts.provider_invocations),
                external_requests: inc(before.counts.external_requests),
                batch_size_histogram: after.counts.batch_size_histogram,
                batched_requests: if batch_size > 1 {
                    inc(before.counts.batched_requests)
                } else {
                    before.counts.batched_requests
                },
                ..before.counts
            },
            ..before
        }) && after.counts.batch_size_histogram@ == histogram_counted(
            before.counts.batch_size_histogram@,
            batch_size,
        )
}

/// A failed request is counted for the running query.
pub open spec fn failed_request_recorded(
    before: QueryRecord,
    after: QueryRecord,
    query_scope: u64,
) -> bool {
    &&& before.query_id != query_scope ==> after == before
    &&& before.query_id == query_scope ==> after == (QueryRecord {
            counts: QueryCounts {
                failed_requests: inc(before.counts.failed_requests),
                ..before.counts
            },
            ..before
        })
}

/// An external request that failed is accounted for the running query.
pub open spec fn provider_failure_recorded(
    before: QueryRecord,
    after: QueryRecord,
    query_scope: u64,
    elapsed_ns: u64,
    external: bool,
) -> bool {
    &&& before.query_id != query_scope || !external ==> after == before
    &&& before.query_id == query_scope && external ==> after == (QueryRecord {
            counts: QueryCounts {
                usage_missing_count: inc(before.counts.usage_missing_count),
                inference_missing_count: inc(before.counts.inference_missing_count),
                external_roundtrip_ns: if before.detailed_timing {
                    add128(before.counts.external_roundtrip_ns, elapsed_ns as int)
                } else {
                    before.counts.external_roundtrip_ns
                },
                external_roundtrip_count: if before.detailed_timing {
                    inc(before.counts.external_roundtrip_count)
                } else {
                    before.counts.external_roundtrip_count
                },
                ..before.counts
            },
            ..before
        })
}

/// A provider response is accounted for the running query.
pub open spec fn provider_response_recorded(
    before: QueryRecord,
    after: QueryRecord,
    query_scope: u64,
    metadata: ProviderMetadata,
    elapsed_ns: u64,
    external: bool,
) -> bool {
    &&& before.query_id != query_scope || !external ==> after == before
    &&& before.query_id == query_scope && external ==> {
            let c = before.counts;
            let detailed = before.detailed_timing;
            let usage_complete = metadata.usage matches Some(u) && u.input_tokens is Some
                && u.output_tokens is Some;
            &&& after.query_id == before.query_id
            &&& after.provider == before.provider
            &&& after.requested_model == before.requested_model
            &&& after.detailed_timing == detailed
            &&& after.counts == QueryCounts {
                external_roundtrip_ns: if detailed {
                    add128(
                        c.external_roundtrip_ns,
                        match metadata.external_roundtrip_ns {
                            Some(t) => t as int,
                            None => elapsed_ns as int,
                        },
                    )
                } else {
                    c.external_roundtrip_ns
                },
                external_roundtrip_count: if detailed {
                    inc(c.external_roundtrip_count)
                } else {
                    c.external_roundtrip_count
                },
                serialization_time_ns: if detailed && metadata.serialization_time_ns is Some {
                    add128(
                        c.serialization_time_ns,
                        metadata.serialization_time_ns.unwrap() as int,
                    )
                } else {
                    c.serialization_time_ns
                },
                serialization_observed_count: if detailed
                    && metadata.serialization_time_ns is Some {
                    inc(c.serialization_observed_count)
                } else {
                    c.serialization_observed_count
                },
                reported_models: after.counts.reported_models,
                usage_response_count: inc(c.usage_response_count),
                input_tokens: if usage_complete {
                    Some(
                        add64(
                            match c.input_tokens {
                                Some(t) => t,
                                None => 0,
                            },
                            metadata.usage.unwrap().input_tokens.unwrap() as int,
                        ),
                    )
                } else {
                    c.input_tokens
                },
                output_tokens: if usage_complete {
                    Some(
                        add64(
                            match c.output_tokens {
                                Some(t) => t,
                                None => 0,
                            },
                            metadata.usage.unwrap().output_tokens.unwrap() as int,
                        ),
                    )
                } else {
                    c.output_tokens
                },
                usage_missing_count: if usage_complete {
                    c.usage_missing_count
                } else {
                    inc(c.usage_missing_count)
                },
                inference_time_ms: match metadata.inference_time_ms {
                    Some(ms) => add128(c.inference_time_ms, ms as int),
                    None => c.inference_time_ms,
                },
                inference_observed_count: if metadata.inference_time_ms is Some {
                    inc(c.inference_observed_count)
                } else {
                    c.inference_observed_count
                },
                inference_missing_count: if metadata.inference_time_ms is Some {
                    c.inference_missing_count
                } else {
                    inc(c.inference_missing_count)
                },
                ..c
            }
            &&& match metadata.effective_model {
                Some(m) if !is_blank_text(m@) => after.counts.reported_models.deep_view()
                    == models_with(c.reported_models.deep_view(), m@),
                _ => after.counts.reported_models == c.reported_models,
            }
        }
}

impl QueryRecord {
    /// A fresh record for query `query_id`.
    pub fn new(query_id: u64) -> (r: Self)
        ensures
            r.query_id == query_id,
            r.counts.is_zero(),
            r.provider is None,
            r.requested_model is None,
            !r.detailed_timing,
    {
        QueryRecord {
            query_id,
            counts: QueryCounts::default(),
            provider: None,
            requested_model: None,
            detailed_timing: false,
        }
    }

    /// The first provider and model named in the query are kept; detailed timing stays on once
    /// any invocation asks for it.
    pub fn record_profile_context(
        &mut self,
        query_scope: u64,
        provider: &str,
        requested_model: &str,
        detailed_timing: bool,
    )
        ensures
            profile_context_recorded(*old(self), *final(self), query_scope, provider@, requested_model@, detailed_timing),
    {
        if self.query_id != query_scope {
            return;
        }
        if self.provider.is_none() {
            self.provider = Some(String::from_str(provider));
        }
        if self.requested_model.is_none() {
            self.requested_model = Some(String::from_str(requested_model));
        }
        self.detailed_timing = self.detailed_timing || detailed_timing;
    }

    /// Rows of one optimized chunk: every input row, the NULL and valid ones, and the valid rows
    /// that repeat a judgment already in the chunk.
    pub fn record_optimized_rows(
        &mut self,
        query_scope: u64,
        input_rows: usize,
        null_rows: usize,
        valid_rows: usize,
        unique_judgments: usize,
    )
        ensures
            optimized_rows_recorded(*old(self), *final(self), query_scope, input_rows, null_rows, valid_rows, unique_judgments),
    {
        if self.query_id != query_scope {
            return;
        }
        self.counts.input_rows = self.counts.input_rows.saturating_add(input_rows as u64);
        self.counts.null_rows = self.counts.null_rows.saturating_add(null_rows as u64);
        self.counts.valid_rows = self.counts.valid_rows.saturating_add(valid_rows as u64);
        self.counts.deduplicated_rows = self.counts.deduplicated_rows.saturating_add(
            valid_rows.saturating_sub(unique_judgments) as u64,
        );
    }

    pub fn record_row_input(&mut self, query_scope: u64)
        ensures
            row_input_recorded(*old(self), *final(self), query_scope),
    {
        if self.query_id == query_scope {
            self.counts.input_rows = self.counts.input_rows.saturating_add(1);
        }
    }

    /// A row-mode row result: NULL, or a valid row that was its own judgment.
    pub fn record_row_result(&mut self, query_scope: u64, is_null: bool)
        ensures
            row_result_recorded(*old(self), *final(self), query_scope, is_null),
    {
        if self.query_id == query_scope {
            if is_null {
                self.counts.null_rows = self.counts.null_rows.saturating_add(1);
            } else {
                self.counts.valid_rows = self.counts.valid_rows.saturating_add(1);
                self.counts.unique_judgments = self.counts.unique_judgments.saturating_add(1);
            }
        }
    }

    /// A judgment claimed in the query: one shared with an earlier claim is a deduplicated row,
    /// the first claim a unique judgment.
    pub fn record_claim(&mut self, query_scope: u64, shared: bool)
        ensures
            claim_recorded(*old(self), *final(self), query_scope, shared),
    {
        if self.query_id == query_scope {
            if shared {
                self.counts.deduplicated_rows = self.counts.deduplicated_rows.saturating_add(1);
            } else {
                self.counts.unique_judgments = self.counts.unique_judgments.saturating_add(1);
            }
        }
    }

    pub fn record_cache_hit(&mut self, query_scope: u64)
        ensures
            cache_hit_recorded(*old(self), *final(self), query_scope),
    {
        if self.query_id == query_scope {
            self.counts.cache_hit_judgments = self.counts.cache_hit_judgments.saturating_add(1);
        }
    }

    /// Every provider invocation counts; an external one is also a request of `batch_size`
    /// judgments, batched when it holds more than one.
    pub fn record_provider_attempt(&mut self, query_scope: u64, batch_size: usize, external: bool)
        ensures
            provider_attempt_recorded(*old(self), *final(self), query_scope, batch_size, external),
    {
        if self.query_id != query_scope {
            return;
        }
        self.counts.provider_invocations = self.counts.provider_invocations.saturating_add(1);
        if external {
            self.counts.external_requests = self.counts.external_requests.saturating_add(1);
            count_batch_size(&mut self.counts.batch_size_histogram, batch_size);
            if batch_size > 1 {
                self.counts.batched_requests = self.counts.batched_requests.saturating_add(1);
            }
        }
    }

    pub fn record_failed_request(&mut self, query_scope: u64)
        ensures
            failed_request_recorded(*old(self), *final(self), query_scope),
    {
        if self.query_id == query_scope {
            self.counts.failed_requests = self.counts.failed_requests.saturating_add(1);
        }
    }

    /// An external request that failed before a response: usage and server timing are
    /// missing; with detailed timing its wall time counts as a round trip.
    pub fn record_provider_failure(&mut self, query_scope: u64, elapsed_ns: u64, external: bool)
        ensures
            provider_failure_recorded(*old(self), *final(self), query_scope, elapsed_ns, external),
    {
        if self.query_id != query_scope {
            return;
        }
        if external {
            self.counts.usage_missing_count = self.counts.usage_missing_count.saturating_add(1);
            self.counts.inference_missing_count = self.counts.inference_missing_count.saturating_add(
                1,
            );
            if self.detailed_timing {
                self.counts.external_roundtrip_ns = self.counts.external_roundtrip_ns.saturating_add(
                    elapsed_ns as u128,
                );
                self.counts.external_roundtrip_count = self.counts.external_roundtrip_count.saturating_add(
                    1,
                );
            }
        }
    }

    /// A response to an external request: round-trip and serialization time (with detailed
    /// timing), the reported model, token usage when both counts are reported, and server
    /// inference time.
    pub fn record_provider_response(
        &mut self,
        query_scope: u64,
        metadata: &ProviderMetadata,
        elapsed_ns: u64,
        external: bool,
    )
        ensures
            provider_response_recorded(*old(self), *final(self), query_scope, *metadata, elapsed_ns, external),
    {
        if self.query_id != query_scope || !external {
            return;
        }
        if self.detailed_timing {
            let roundtrip: u128 = match metadata.external_roundtrip_ns {
                Some(t) => t as u128,
                None => elapsed_ns as u128,
            };
            self.counts.external_roundtrip_ns = self.counts.external_roundtrip_ns.saturating_add(
                roundtrip,
            );
            self.counts.external_roundtrip_count = self.counts.external_roundtrip_count.saturating_add(
                1,
            );
            if let Some(serialization_time_ns) = metadata.serialization_time_ns {
                self.counts.serialization_time_ns = self.counts.serialization_time_ns.saturating_add(
                    serialization_time_ns as u128,
                );
                self.counts.serialization_observed_count =
                    self.counts.serialization_observed_count.saturating_add(1);
            }
        }
        if let Some(model) = &metadata.effective_model {
            if !is_blank(model.as_str()) {
                add_model(&mut self.counts.reported_models, model.as_str());
            }
        }
        self.counts.usage_response_count = self.counts.usage_response_count.saturating_add(1);
        let mut counted = false;
        if let Some(usage) = &metadata.usage {
            if let (Some(input), Some(output)) = (usage.input_tokens, usage.output_tokens) {
                let previous_input = match self.counts.input_tokens {
                    Some(t) => t,
                    None => 0,
                };
                let previous_output = match self.counts.output_tokens {
                    Some(t) => t,
                    None => 0,
                };
                self.counts.input_tokens = Some(previous_input.saturating_add(input));
                self.counts.output_tokens = Some(previous_output.saturating_add(output));
                counted = true;
            }
        }
        if !counted {
            self.counts.usage_missing_count = self.counts.usage_missing_count.saturating_add(1);
        }
        match metadata.inference_time_ms {
            Some(milliseconds) => {
                self.counts.inference_time_ms = self.counts.inference_time_ms.saturating_add(
                    milliseconds as u128,
                );
                self.counts.inference_observed_count =
                    self.counts.inference_observed_count.saturating_add(1);
            },
            None => {
                self.counts.inference_missing_count =
                    self.counts.inference_missing_count.saturating_add(1);
            },
        }
    }
}

/// What a profile report is made from: the ended query's outcome, its context and counts,
/// its wall time, and whether detailed timing was on.
#[derive(Debug, Clone)]
pub struct ProfileReport {
    pub status: String,
    pub provider: Option<String>,
    pub requested_model: Option<String>,
    pub counts: QueryCounts,
    pub elapsed_ns: u128,
    pub detailed_timing: bool,
}

/// The decisions behind a rendered profile: which aggregates are known and why a cost is not.
#[derive(Debug, Clone, PartialEq, Eq)]
pub struct ProfileFacts {
    /// Token totals, reported only when every external request reported both counts.
    pub usage_input: Option<u64>,
    pub usage_output: Option<u64>,
    /// Serialization and round-trip sums are shown only with detailed timing and an
    /// observation for every external request.
    pub serialization_observed: bool,
    pub roundtrip_observed: bool,
    /// Server inference time is known only when every external request reported it.
    pub inference_complete: bool,
    /// The published TypeSafe rate applies only to the `typesafe` provider.
    pub typesafe_priced: bool,
    /// Why no cost is estimated; empty when one is.
    pub cost_unknown_reason: String,
}

pub open spec fn usage_complete(c: QueryCounts) -> bool {
    c.external_requests > 0 && c.usage_missing_count == 0 && c.usage_response_count
        == c.external_requests
}

pub open spec fn inference_complete(c: QueryCounts) -> bool {
    c.external_requests > 0 && c.inference_missing_count == 0 && c.inference_observed_count
        == c.external_requests
}

pub open spec fn cost_reason(priced: bool, c: QueryCounts) -> Seq<char> {
    if !priced {
        "provider_pricing_not_applicable_or_unverified"@
    } else if c.external_requests == 0 {
        "no_external_requests"@
    } else if c.failed_requests > 0 {
        "failed_requests_may_be_billable"@
    } else if !usage_complete(c) || c.input_tokens is None {
        "provider_usage_unavailable_or_incomplete"@
    } else {
        ""@
    }
}

/// A failed request may have been billed, so whenever the TypeSafe rate applies and a request
/// went out, a failed request leaves the cost unknown, whatever the usage counts say; and a
/// cost is estimated (empty reason) only for priced queries with external requests, none
/// failed, usage reported by every request and a known input-token count.
pub proof fn law_failed_request_makes_cost_unknown(priced: bool, c: QueryCounts)
    ensures
        priced && c.external_requests > 0 && c.failed_requests > 0 ==> cost_reason(priced, c)
            == "failed_requests_may_be_billable"@,
        cost_reason(priced, c) == ""@ ==> {
            &&& priced
            &&& c.external_requests > 0
            &&& c.failed_requests == 0
            &&& c.usage_missing_count == 0
            &&& c.usage_response_count == c.external_requests
            &&& c.input_tokens is Some
        },
{
    reveal_strlit("");
    reveal_strlit("provider_pricing_not_applicable_or_unverified");
    reveal_strlit("no_external_requests");
    reveal_strlit("failed_requests_may_be_billable");
    reveal_strlit("provider_usage_unavailable_or_incomplete");
    assert(""@.len() == 0);
    assert("provider_pricing_not_applicable_or_unverified"@.len() > 0);
    assert("no_external_requests"@.len() > 0);
    assert("failed_requests_may_be_billable"@.len() > 0);
    assert("provider_usage_unavailable_or_incomplete"@.len() > 0);
}

/// The decisions behind the profile report: no user state, questions, endpoints, credentials
/// or error text enter them.
pub fn profile_facts(report: &ProfileReport) -> (r: ProfileFacts)
    ensures
        ({
            let c = report.counts;
            let priced = report.provider.deep_view() == Some("typesafe"@);
            &&& r.usage_input == if usage_complete(c) {
                c.input_tokens
            } else {
                None
            }
            &&& r.usage_output == if usage_complete(c) {
                c.output_tokens
            } else {
                None
            }
            &&& r.serialization_observed == (report.detailed_timing
                && c.serialization_observed_count == c.external_requests && c.external_requests > 0)
            &&& r.roundtrip_observed == (report.detailed_timing && c.external_roundtrip_count
                == c.external_requests && c.external_requests > 0)
            &&& r.inference_complete == inference_complete(c)
            &&& r.typesafe_priced == priced
            &&& r.cost_unknown_reason@ == cost_reason(priced, c)
            &&& priced && c.external_requests > 0 && c.failed_requests > 0
                ==> r.cost_unknown_reason@ == "failed_requests_may_be_billable"@
        }),
{
    proof {
        law_failed_request_makes_cost_unknown(
            report.provider.deep_view() == Some("typesafe"@),
            report.counts,
        );
    }
    let c = &report.counts;
    let complete = c.external_requests > 0 && c.usage_missing_count == 0
        && c.usage_response_count == c.external_requests;
    let usage_input = if complete {
        c.input_tokens
    } else {
        None
    };
    let usage_output = if complete {
        c.output_tokens
    } else {
        None
    };
    let priced = match &report.provider {
        Some(p) => *p == String::from_str("typesafe"),
        None => false,
    };
    let reason = if !priced {
        "provider_pricing_not_applicable_or_unverified"
    } else if c.external_requests == 0 {
        "no_external_requests"
    } else if c.failed_requests > 0 {
        "failed_requests_may_be_billable"
    } else if !complete || usage_input.is_none() {
        "provider_usage_unavailable_or_incomplete"
    } else {
        ""
    };
    ProfileFacts {
        usage_input,
        usage_output,
        serialization_observed: report.detailed_timing && c.serialization_observed_count
            == c.external_requests && c.external_requests > 0,
        roundtrip_observed: report.detailed_timing && c.external_roundtrip_count
            == c.external_requests && c.external_requests > 0,
        inference_complete: c.external_requests > 0 && c.inference_missing_count == 0
            && c.inference_observed_count == c.external_requests,
        typesafe_priced: priced,
        cost_unknown_reason: String::from_str(reason),
    }
}

} // verus!
