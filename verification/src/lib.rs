//! Core of a hierarchical navigable small-world (HNSW) index builder for
//! approximate nearest-neighbor search over dense vectors.
//!
//! The builder grows a multi-layer proximity graph by inserting points one by
//! one: greedy descent from an entry point, a bounded beam search on each
//! layer, heuristic neighbor selection, and reciprocal link maintenance.
//! Scores are similarity values (higher is more similar) represented as
//! bounded signed integers; distance metrics must be negated and quantized
//! before they enter the core.
#![allow(unused_imports)]
#![verifier::loop_isolation(false)]

use vstd::prelude::*;

pub mod builder;
pub mod entry;
pub mod heuristic;
pub mod multivec;
pub mod queue;
pub mod scored;
pub mod scorer;
pub mod sealed;
pub mod visited;

verus! {

/// Errors surfaced at the insertion and pool boundaries.
///
/// `InvalidPointId` marks a point id outside the range the builder was
/// constructed for; `CapacityExceeded` marks a visited-set request above the
/// pool's configured maximum. Neither is retriable.
#[derive(Clone, Copy, PartialEq, Eq, Structural, Debug)]
pub enum HnswError {
    InvalidPointId,
    CapacityExceeded,
}

} // verus!
