//! The scored-offset primitive: a point id paired with a similarity score,
//! totally ordered by score with the id as a stable tie-break.

use vstd::prelude::*;

verus! {

/// A point id together with its similarity score against some reference
/// vector (the query, or another stored point). Higher scores are better.
#[derive(Clone, Copy, PartialEq, Eq, Structural, Debug)]
pub struct ScoredPointOffset {
    pub idx: u32,
    pub score: i64,
}

/// Strict "ranks before" order used wherever candidates are compared:
/// the higher score first; among equal scores, the smaller id first.
/// The tie-break keeps every queue, sort and selection deterministic.
pub open spec fn ranks_before(a: ScoredPointOffset, b: ScoredPointOffset) -> bool {
    a.score > b.score || (a.score == b.score && a.idx < b.idx)
}

/// Executable mirror of [`ranks_before`].
pub fn cmp_ranks_before(a: ScoredPointOffset, b: ScoredPointOffset) -> (r: bool)
    ensures
        r == ranks_before(a, b),
{
    a.score > b.score || (a.score == b.score && a.idx < b.idx)
}

/// A sequence is sorted in descending rank order: no later element ranks
/// before an earlier one.
pub open spec fn sorted_desc(s: Seq<ScoredPointOffset>) -> bool {
    forall|i: int, j: int| 0 <= i < j < s.len() ==> !ranks_before(s[j], s[i])
}

/// No two elements of the sequence carry the same point id.
pub open spec fn distinct_ids(s: Seq<ScoredPointOffset>) -> bool {
    forall|i: int, j: int| 0 <= i < j < s.len() ==> s[i].idx != s[j].idx
}

/// No two elements of an id sequence are equal.
pub open spec fn distinct_u32(s: Seq<u32>) -> bool {
    forall|i: int, j: int| 0 <= i < j < s.len() ==> s[i] != s[j]
}

} // verus!
