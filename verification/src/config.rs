//! Connection settings and their validation.
//!
//! Settings are read by the host on each execution and frozen into a `RuntimeConfig` and a
//! `ProviderContext`. Credentials come only from the environment, never from SQL.

use vstd::prelude::*;

use crate::provider::{
    trimmed, ascii_lower, ProviderContext, ProviderKind, DEFAULT_API_URL, DEFAULT_LOCAL_JEV_API_URL,
    DEFAULT_LOCAL_JEV_MODEL, DEFAULT_MAX_RESPONSE_BYTES, DEFAULT_MODEL, DEFAULT_TIMEOUT_MS,
};
use crate::text::{is_blank, is_blank_text, push_str};

verus! {

pub const OPTION_PROVIDER: &'static str = "duckjeu_provider";

pub const OPTION_API_URL: &'static str = "duckjeu_api_url";

pub const OPTION_LOCAL_JEV_API_URL: &'static str = "duckjeu_local_jev_api_url";

pub const OPTION_MODEL: &'static str = "duckjeu_model";

pub const OPTION_TIMEOUT_MS: &'static str = "duckjeu_timeout_ms";

pub const OPTION_MAX_RESPONSE_BYTES: &'static str = "duckjeu_max_response_bytes";

pub const OPTION_EXECUTION_MODE: &'static str = "duckjeu_execution_mode";

pub const OPTION_BATCH_ENABLED: &'static str = "duckjeu_batch_enabled";

pub const OPTION_BATCH_MAX_JUDGMENTS: &'static str = "duckjeu_batch_max_judgments";

pub const OPTION_MAX_REQUEST_BYTES: &'static str = "duckjeu_max_request_bytes";

pub const OPTION_MAX_INFLIGHT: &'static str = "duckjeu_max_inflight";

pub const OPTION_CACHE_ENABLED: &'static str = "duckjeu_cache_enabled";

pub const OPTION_CACHE_MAX_ENTRIES: &'static str = "duckjeu_cache_max_entries";

pub const OPTION_CACHE_MAX_BYTES: &'static str = "duckjeu_cache_max_bytes";

pub const OPTION_CACHE_TTL_MS: &'static str = "duckjeu_cache_ttl_ms";

pub const OPTION_PROFILE_ENABLED: &'static str = "duckjeu_profile_enabled";

/// Credential environment variables; the override wins over the TypeSafe name.
pub const CREDENTIAL_ENV: &'static str = "TYPESAFE_API_KEY";

pub const CREDENTIAL_ENV_OVERRIDE: &'static str = "DUCKJEU_API_KEY";

pub const LOCAL_JEV_CREDENTIAL_ENV: &'static str = "DUCKJEU_LOCAL_JEV_API_KEY";

pub const DEFAULT_BATCH_MAX_JUDGMENTS: i64 = 16;

pub const DEFAULT_MAX_REQUEST_BYTES: i64 = 262_144;

pub const DEFAULT_MAX_INFLIGHT: i64 = 4;

pub const DEFAULT_CACHE_MAX_ENTRIES: i64 = 10_000;

pub const DEFAULT_CACHE_MAX_BYTES: i64 = 67_108_864;

pub const DEFAULT_CACHE_TTL_MS: i64 = 60_000;

#[derive(Debug, Clone, Copy, PartialEq, Eq, Structural)]
pub enum ExecutionMode {
    Row,
    Optimized,
}

impl ExecutionMode {
    pub fn parse(raw: &str) -> (r: Result<Self, String>)
        ensures
            raw@ == "row"@ ==> r == Ok::<ExecutionMode, String>(ExecutionMode::Row),
            raw@ == "optimized"@ ==> r == Ok::<ExecutionMode, String>(ExecutionMode::Optimized),
            raw@ != "row"@ && raw@ != "optimized"@ ==> (r matches Err(m) && m@
                == "duckjeu_execution_mode must be 'row' or 'optimized'"@),
    {
        let text = String::from_str(raw);
        let row = String::from_str("row");
        let optimized = String::from_str("optimized");
        proof {
            reveal_strlit("row");
            reveal_strlit("optimized");
            assert("optimized"@.len() == 9);
            assert("row"@.len() == 3);
        }
        if text == row {
            Ok(ExecutionMode::Row)
        } else if text == optimized {
            Ok(ExecutionMode::Optimized)
        } else {
            Err(String::from_str("duckjeu_execution_mode must be 'row' or 'optimized'"))
        }
    }
}

#[derive(Debug, Clone, PartialEq, Eq, Structural)]
pub struct RuntimeConfig {
    pub mode: ExecutionMode,
    pub batch_enabled: bool,
    pub batch_max_judgments: usize,
    pub max_request_bytes: usize,
    pub max_inflight: usize,
    pub cache_enabled: bool,
    pub cache_max_entries: usize,
    pub cache_max_bytes: usize,
    pub cache_ttl_ms: usize,
    pub profile_enabled: bool,
}

/// A limit setting must be a positive integer that fits the platform.
pub fn positive_limit(name: &str, value: i64) -> (r: Result<usize, String>)
    ensures
        0 < value <= usize::MAX ==> r == Ok::<usize, String>(value as usize),
        !(0 < value <= usize::MAX) ==> (r matches Err(m) && m@ == name@
            + " must be a positive integer"@),
{
    if value > 0 && (value as u64) <= (usize::MAX as u64) {
        Ok(value as usize)
    } else {
        let mut message = String::from_str(name);
        push_str(&mut message, " must be a positive integer");
        Err(message)
    }
}

/// The first setting of `RuntimeConfig::from_values` that is rejected, and its message.
pub open spec fn limit_ok(value: i64) -> bool {
    0 < value <= usize::MAX
}

impl RuntimeConfig {
    /// Validates the execution settings. Batching and caching need optimized mode; every limit
    /// must be positive. Profiling is set separately.
    pub fn from_values(
        mode: &str,
        batch_enabled: bool,
        batch_max_judgments: i64,
        max_request_bytes: i64,
        max_inflight: i64,
        cache_enabled: bool,
        cache_max_entries: i64,
        cache_max_bytes: i64,
        cache_ttl_ms: i64,
    ) -> (r: Result<Self, String>)
        ensures
            ({
                let parsed_mode = if mode@ == "row"@ {
                    Some(ExecutionMode::Row)
                } else if mode@ == "optimized"@ {
                    Some(ExecutionMode::Optimized)
                } else {
                    None
                };
                match parsed_mode {
                    None => r matches Err(m) && m@
                        == "duckjeu_execution_mode must be 'row' or 'optimized'"@,
                    Some(m) => if m == ExecutionMode::Row && batch_enabled {
                        r matches Err(e) && e@
                            == "duckjeu_batch_enabled requires duckjeu_execution_mode='optimized'"@
                    } else if m == ExecutionMode::Row && cache_enabled {
                        r matches Err(e) && e@
                            == "duckjeu_cache_enabled requires duckjeu_execution_mode='optimized'"@
                    } else if !limit_ok(batch_max_judgments) {
                        r matches Err(e) && e@ == OPTION_BATCH_MAX_JUDGMENTS@
                            + " must be a positive integer"@
                    } else if !limit_ok(max_request_bytes) {
                        r matches Err(e) && e@ == OPTION_MAX_REQUEST_BYTES@
                            + " must be a positive integer"@
                    } else if !limit_ok(max_inflight) {
                        r matches Err(e) && e@ == OPTION_MAX_INFLIGHT@
                            + " must be a positive integer"@
                    } else if !limit_ok(cache_max_entries) {
                        r matches Err(e) && e@ == OPTION_CACHE_MAX_ENTRIES@
                            + " must be a positive integer"@
                    } else if !limit_ok(cache_max_bytes) {
                        r matches Err(e) && e@ == OPTION_CACHE_MAX_BYTES@
                            + " must be a positive integer"@
                    } else if !limit_ok(cache_ttl_ms) {
                        r matches Err(e) && e@ == OPTION_CACHE_TTL_MS@
                            + " must be a positive integer"@
                    } else {
                        r == Ok::<RuntimeConfig, String>(
                            RuntimeConfig {
                                mode: m,
                                batch_enabled,
                                batch_max_judgments: batch_max_judgments as usize,
                                max_request_bytes: max_request_bytes as usize,
                                max_inflight: max_inflight as usize,
                                cache_enabled,
                                cache_max_entries: cache_max_entries as usize,
                                cache_max_bytes: cache_max_bytes as usize,
                                cache_ttl_ms: cache_ttl_ms as usize,
                                profile_enabled: false,
                            },
                        )
                    },
                }
            }),
    {
        let mode = ExecutionMode::parse(mode)?;
        if mode == ExecutionMode::Row && batch_enabled {
            return Err(
                String::from_str(
                    "duckjeu_batch_enabled requires duckjeu_execution_mode='optimized'",
                ),
            );
        }
        if mode == ExecutionMode::Row && cache_enabled {
            return Err(
                String::from_str(
                    "duckjeu_cache_enabled requires duckjeu_execution_mode='optimized'",
                ),
            );
        }
        let batch_max_judgments = positive_limit(OPTION_BATCH_MAX_JUDGMENTS, batch_max_judgments)?;
        let max_request_bytes = positive_limit(OPTION_MAX_REQUEST_BYTES, max_request_bytes)?;
        let max_inflight = positive_limit(OPTION_MAX_INFLIGHT, max_inflight)?;
        let cache_max_entries = positive_limit(OPTION_CACHE_MAX_ENTRIES, cache_max_entries)?;
        let cache_max_bytes = positive_limit(OPTION_CACHE_MAX_BYTES, cache_max_bytes)?;
        let cache_ttl_ms = positive_limit(OPTION_CACHE_TTL_MS, cache_ttl_ms)?;
        Ok(
            RuntimeConfig {
                mode,
                batch_enabled,
                batch_max_judgments,
                max_request_bytes,
                max_inflight,
                cache_enabled,
                cache_max_entries,
                cache_max_bytes,
                cache_ttl_ms,
                profile_enabled: false,
            },
        )
    }
}

/// An explicit model is kept as configured; otherwise each provider's default model.
pub fn effective_model(provider: ProviderKind, configured_model: Option<String>) -> (r: String)
    ensures
        match configured_model {
            Some(m) if m@.len() > 0 => r@ == m@,
            _ => r@ == if provider == ProviderKind::SelfHosted {
                DEFAULT_LOCAL_JEV_MODEL@
            } else {
                DEFAULT_MODEL@
            },
        },
{
    match configured_model {
        Some(model) => {
            if model.unicode_len() > 0 {
                return model;
            }
        },
        None => {},
    }
    if provider == ProviderKind::SelfHosted {
        String::from_str(DEFAULT_LOCAL_JEV_MODEL)
    } else {
        String::from_str(DEFAULT_MODEL)
    }
}

/// The credential of the TypeSafe service: the override variable's value when it is not
/// blank, else the TypeSafe variable's value when it is not blank.
pub fn credential_choice(override_value: Option<String>, typesafe_value: Option<String>) -> (r:
    Option<String>)
    ensures
        match override_value {
            Some(v) if !is_blank_text(v@) => r == Some(v),
            _ => match typesafe_value {
                Some(v) if !is_blank_text(v@) => r == Some(v),
                _ => r is None,
            },
        },
{
    if let Some(v) = override_value {
        if !is_blank(v.as_str()) {
            return Some(v);
        }
    }
    if let Some(v) = typesafe_value {
        if !is_blank(v.as_str()) {
            return Some(v);
        }
    }
    None
}

/// A non-blank credential, or none.
pub fn non_blank_credential(value: Option<String>) -> (r: Option<String>)
    ensures
        match value {
            Some(v) if !is_blank_text(v@) => r == Some(v),
            _ => r is None,
        },
{
    match value {
        Some(v) => if is_blank(v.as_str()) {
            None
        } else {
            Some(v)
        },
        None => None,
    }
}

/// A positive setting, or `default` when unset.
pub open spec fn positive_or(value: Option<i64>, default: u64) -> Option<u64> {
    match value {
        Some(v) => if v > 0 {
            Some(v as u64)
        } else {
            None
        },
        None => Some(default),
    }
}

/// Freezes the provider settings of one execution. The self-hosted service reads its own
/// endpoint setting unless the general endpoint was set to something other than its default.
pub fn provider_context_from_values(
    provider_raw: Option<String>,
    api_url: Option<String>,
    local_jev_api_url: Option<String>,
    model: Option<String>,
    timeout_ms: Option<i64>,
    max_response_bytes: Option<i64>,
    typesafe_credential: Option<String>,
    local_jev_credential: Option<String>,
) -> (r: Result<ProviderContext, String>)
    ensures
        ({
            let raw = match provider_raw {
                Some(p) => p@,
                None => "mock"@,
            };
            let name = ascii_lower(trimmed(raw));
            let kind = if name == "mock"@ {
                Some(ProviderKind::Mock)
            } else if name == "typesafe"@ {
                Some(ProviderKind::Typesafe)
            } else if name == "selfhosted"@ {
                Some(ProviderKind::SelfHosted)
            } else {
                None
            };
            match kind {
                None => r matches Err(m) && m@ == "unknown duckjeu_provider '"@ + name
                    + "': expected 'mock', 'typesafe', or 'selfhosted'"@,
                Some(provider) => if positive_or(timeout_ms, DEFAULT_TIMEOUT_MS) is None {
                    r matches Err(m) && m@ == "duckjeu_timeout_ms must be positive"@
                } else if positive_or(max_response_bytes, DEFAULT_MAX_RESPONSE_BYTES) is None {
                    r matches Err(m) && m@ == "duckjeu_max_response_bytes must be positive"@
                } else {
                    r matches Ok(ctx) && {
                        &&& ctx.provider == provider
                        &&& ctx.api_url@ == match provider {
                            ProviderKind::SelfHosted => match api_url {
                                Some(u) if u@ != DEFAULT_API_URL@ => u@,
                                _ => match local_jev_api_url {
                                    Some(l) => l@,
                                    None => DEFAULT_LOCAL_JEV_API_URL@,
                                },
                            },
                            _ => match api_url {
                                Some(u) => u@,
                                None => DEFAULT_API_URL@,
                            },
                        }
                        &&& ctx.model@ == match model {
                            Some(m) if m@.len() > 0 => m@,
                            _ => if provider == ProviderKind::SelfHosted {
                                DEFAULT_LOCAL_JEV_MODEL@
                            } else {
                                DEFAULT_MODEL@
                            },
                        }
                        &&& Some(ctx.timeout_ms) == positive_or(timeout_ms, DEFAULT_TIMEOUT_MS)
                        &&& Some(ctx.max_response_bytes) == positive_or(
                            max_response_bytes,
                            DEFAULT_MAX_RESPONSE_BYTES,
                        )
                        &&& ctx.credential == if provider == ProviderKind::SelfHosted {
                            local_jev_credential
                        } else {
                            typesafe_credential
                        }
                    }
                },
            }
        }),
{
    let raw = match provider_raw {
        Some(p) => p,
        None => String::from_str("mock"),
    };
    proof {
        reveal_strlit("mock");
        reveal_strlit("typesafe");
        reveal_strlit("selfhosted");
    }
    let provider = match ProviderKind::parse(raw.as_str()) {
        Ok(p) => p,
        Err(e) => return Err(String::from_str(e.message())),
    };
    proof {
        let name = ascii_lower(trimmed(raw@));
        assert(provider.name() == name);
        match provider {
            ProviderKind::Mock => assert(name == "mock"@),
            ProviderKind::Typesafe => {
                assert(name == "typesafe"@);
                assert(name != "mock"@);
            },
            ProviderKind::SelfHosted => {
                assert(name == "selfhosted"@);
                assert(name != "mock"@);
                assert(name != "typesafe"@);
            },
        }
    }
    let api_url = match provider {
        ProviderKind::SelfHosted => {
            let explicit = match api_url {
                Some(url) => if url != String::from_str(DEFAULT_API_URL) {
                    Some(url)
                } else {
                    None
                },
                None => None,
            };
            match explicit {
                Some(url) => url,
                None => match local_jev_api_url {
                    Some(url) => url,
                    None => String::from_str(DEFAULT_LOCAL_JEV_API_URL),
                },
            }
        },
        _ => match api_url {
            Some(url) => url,
            None => String::from_str(DEFAULT_API_URL),
        },
    };
    let timeout_ms = match timeout_ms {
        Some(v) => if v > 0 {
            v as u64
        } else {
            return Err(String::from_str("duckjeu_timeout_ms must be positive"));
        },
        None => DEFAULT_TIMEOUT_MS,
    };
    let max_response_bytes = match max_response_bytes {
        Some(v) => if v > 0 {
            v as u64
        } else {
            return Err(String::from_str("duckjeu_max_response_bytes must be positive"));
        },
        None => DEFAULT_MAX_RESPONSE_BYTES,
    };
    let credential = match provider {
        ProviderKind::SelfHosted => local_jev_credential,
        _ => typesafe_credential,
    };
    Ok(
        ProviderContext {
            provider,
            api_url,
            model: effective_model(provider, model),
            timeout_ms,
            max_response_bytes,
            credential,
        },
    )
}

} // verus!
