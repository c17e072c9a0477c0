//! Canonical, hashable and ordered keys for IEEE-754 single- and
//! double-precision values.
//!
//! A value is held by its bit pattern (`u32` for single precision, `u64`
//! for double precision).  A non-NaN value is decomposed exactly into a
//! mantissa, a power-of-two exponent and a sign; a NaN keeps its bit pattern.
//! Equality, ordering and hashing are defined on that decomposition.
//!
//! Construction never fails: a NaN is a variant of its own. Two NaNs are
//! equal when their double bit patterns are, so every NaN equals itself.
//! Numbers are ordered by their exact value; any comparison that involves a
//! NaN has no ordering.
pub mod encoding;
pub mod magnitude;
pub mod components;
pub mod rounding;
pub mod laws;
