//! Hyena: an append-only corpus of provenance-tracked text atoms.
//!
//! Documents are segmented into atoms (headings, bullets, paragraphs, code
//! blocks, or raw lines) with line-number provenance, deduplicated against a
//! growing log under an exact and an optional semantic key, and grouped into
//! similarity clusters by token overlap.

use vstd::prelude::*;

pub mod chunk;
pub mod cluster;
pub mod dedupe;
pub mod glob;
pub mod ingest;
pub mod logs;
pub mod paths;
pub mod policy;
pub mod search;
pub mod text;
pub mod tokens;
pub mod unionfind;

verus! {

/// Minimum number of atoms a cluster must have to be emitted.
pub const MIN_ATOMS: usize = 2;

} // verus!
