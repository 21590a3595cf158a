//! A temporal query multiplexer for a Prometheus-compatible store.
//!
//! One client query fans out across several configured time windows; the
//! fetched series are correlated by signature (their label map less the
//! timeframe label), derived series are computed against a trailing-average
//! baseline (relabelled averages, absolute compare, percent compare), and
//! the merged result is filtered, deduplicated and wrapped in the envelope
//! the upstream store itself would have produced.
//!
//! The crate holds the verified computation: request rewriting, selector
//! extraction, the numeric transforms in exact fixed-point arithmetic, the
//! signature tables, the derived-series builders and the result assembly.
//! Issuing HTTP calls and decoding JSON bodies stay with the caller.

pub mod builders;
pub mod fetch;
pub mod filtering;
pub mod model;
pub mod numeric;
pub mod pipeline;
pub mod proxy;
pub mod selectors;
pub mod signature;
