//! A dimensional-analysis and unit-conversion core.
//!
//! Physical dimensions and concrete units are both represented as elements
//! of a free abelian group: finite maps from an arena identity to a nonzero
//! integer exponent.  An `Environment` owns the registries of unit classes
//! and units, derives the canonical base dimension of any compound unit,
//! and renders units, scalars and formula trees as strings.
//!
//! Floating-point arithmetic (conversion ratios, scalar values) cannot be
//! verified here; scalar payloads are carried as opaque `u64` bit patterns
//! and the arithmetic on them lives outside the verified core.

pub mod algebra;
pub mod env;
pub mod fmt;
pub mod formula;
pub mod storage;
pub mod unit;
