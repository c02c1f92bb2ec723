//! Claim attribute sets and claim attribute value maps for anonymous credentials.
//!
//! Both are built step by step by a builder that every step consumes, checked once on
//! the way in, and frozen by `finalize` into a product that nothing can change.

pub mod attributes;
pub mod errors;
pub mod ffi;
pub mod names;
pub mod values;
