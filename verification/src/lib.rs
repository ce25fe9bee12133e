//! Mines database slow-query log exports for recurring query patterns.
//!
//! The pipeline extracts balanced-brace fragments from free-text fields,
//! parses each candidate fragment as JSON, normalizes recognized records
//! into canonical query patterns, deduplicates them by display identity,
//! and aggregates usage statistics per collection and per field value.

use vstd::prelude::*;

pub mod aggregate;
pub mod analyze;
pub mod fragments;
pub mod json;
pub mod pattern;
pub mod project;
pub mod text;

verus! {

/// Reserved operator keys begin with this marker and are never treated as
/// user field names.
pub open spec fn spec_is_operator_key(k: Seq<char>) -> bool {
    k.len() > 0 && k[0] == '$'
}

/// A key is eligible for field-name extraction and value sampling unless it
/// is an operator key or the internal identifier field.
pub open spec fn spec_eligible_key(k: Seq<char>) -> bool {
    !spec_is_operator_key(k) && k != "_id"@
}

} // verus!
