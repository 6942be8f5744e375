//! Judgment core of the DuckJeu extension: canonical state encoding, judgment identities,
//! request and response validation, the bounded result cache, batch planning, provider
//! protocol logic and query accounting.
//!
//! Everything here is plain data and verified logic. The DuckDB bridge, the HTTP transport
//! and the worker threads live in the host crate under `app/`.

pub mod text;
pub mod serialize;
pub mod judgment;
pub mod provider;
pub mod cache;

pub mod runtime;
pub mod executor;
pub mod json;
pub mod typesafe;
pub mod mock;
pub mod metrics;
pub mod config;
pub mod functions;
pub mod host;
