//! Per-key minimum / mean / maximum statistics over `key;value` text records.
//!
//! A raw byte buffer holding one `key;value` record per line is split into
//! line-aligned chunks, each chunk is aggregated independently into per-key
//! running statistics, and the partial results are merged into one aggregate,
//! which is rendered as a single sorted report line.
//!
//! Values are modelled as fixed-point numbers in tenths, so every contract is
//! exact integer arithmetic: merging partial aggregates is exactly commutative
//! and associative, and the rendered report is pinned down byte for byte.
//!
//! The fixed-point model is a deliberate limit. A value token is accepted
//! only when it is exactly representable in tenths: an optional minus sign,
//! digits, and an optional fraction whose digits past the first are zero,
//! with a magnitude of at most 99,999,999,999.9. A token outside this model
//! (a second significant fractional digit, an exponent, a larger magnitude)
//! is skipped like any other malformed value, where a floating-point reader
//! would have aggregated a rounded approximation of it.

pub mod aggmap;
pub mod aggspec;
pub mod parse;
pub mod partition;
pub mod pipeline;
pub mod render;
pub mod stats;
pub mod value;
