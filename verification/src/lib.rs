//! A template normalizer for interpolation format strings.
//!
//! A template is text interspersed with `{...}` placeholders. Each
//! placeholder holds an optional identifier (empty, a bare name, or a
//! non-negative decimal literal) and an optional specifier after a `:`.
//! Normalization rewrites every placeholder to carry an explicit,
//! canonical identifier and collects the set of distinct identifiers
//! referenced, in first-appearance order.

pub mod laws;
pub mod model;
pub mod parse;

pub use parse::parse_internal;
pub use parse::Interpolate;
