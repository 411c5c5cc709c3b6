//! Multi-vector points and the metric query scorer over them.
//!
//! A multi-vector point is a non-empty bag of equal-dimension vectors.
//! Similarity between two multi-vectors is the max-sim aggregation for the
//! dot-product metric: for each part of the first, the best dot product
//! against any part of the second, summed. The dot-product metric's
//! preprocessing is the identity, so the scorer stores the query unchanged.

use vstd::prelude::*;

use crate::scorer::{comps_bounded, dot, dot_spec, lemma_dot_prefix_bound, MAX_DIM, SCORE_LIMIT};

verus! {

/// Largest admissible number of parts of one multi-vector point.
pub const MAX_PARTS: usize = 64;

/// `MAX_PARTS * SCORE_LIMIT`: every aggregated score `s` satisfies
/// `-MULTI_SCORE_LIMIT <= s <= MULTI_SCORE_LIMIT`.
pub const MULTI_SCORE_LIMIT: i64 = 4611686018427387904;

/// A non-empty bag of equal-dimension vectors standing for one point.
pub struct MultiVector {
    pub parts: Vec<Vec<i64>>,
}

/// Well-formed with respect to a dimension: at least one part, a bounded
/// number of parts, and every part of that dimension with bounded
/// components.
pub open spec fn mv_wf(v: MultiVector, dim: int) -> bool {
    &&& v.parts@.len() >= 1
    &&& v.parts@.len() <= MAX_PARTS
    &&& forall|i: int|
        0 <= i < v.parts@.len() ==> (#[trigger] v.parts@[i])@.len() == dim && comps_bounded(
            v.parts@[i]@,
        )
}

/// The best dot product of `q` against the first `j` parts of `p`.
pub open spec fn best_part_score(q: Seq<i64>, p: MultiVector, j: int) -> int
    decreases j,
{
    if j <= 1 {
        dot_spec(q, p.parts@[0]@)
    } else {
        let prev = best_part_score(q, p, j - 1);
        let cur = dot_spec(q, p.parts@[j - 1]@);
        if cur > prev {
            cur
        } else {
            prev
        }
    }
}

/// Max-sim over the first `i` parts of the query: each query part
/// contributes its best dot product against any part of `p`.
pub open spec fn maxsim_prefix(q: MultiVector, p: MultiVector, i: int) -> int
    decreases i,
{
    if i <= 0 {
        0
    } else {
        maxsim_prefix(q, p, i - 1) + best_part_score(
            q.parts@[i - 1]@,
            p,
            p.parts@.len() as int,
        )
    }
}

/// The max-sim similarity of query `q` against point `p`.
pub open spec fn maxsim(q: MultiVector, p: MultiVector) -> int {
    maxsim_prefix(q, p, q.parts@.len() as int)
}

pub proof fn lemma_best_part_bound(q: Seq<i64>, p: MultiVector, j: int, dim: int)
    requires
        mv_wf(p, dim),
        q.len() == dim,
        comps_bounded(q),
        0 <= dim <= MAX_DIM,
        1 <= j <= p.parts@.len(),
    ensures
        -SCORE_LIMIT <= best_part_score(q, p, j) <= SCORE_LIMIT,
    decreases j,
{
    if j > 1 {
        lemma_best_part_bound(q, p, j - 1, dim);
    }
    lemma_dot_prefix_bound(q, p.parts@[j - 1]@, q.len() as int);
    lemma_dot_prefix_bound(q, p.parts@[0]@, q.len() as int);
}

/// Dot product of one query part against the best of `p`'s parts; exact.
fn best_part(qp: &Vec<i64>, p: &MultiVector, dim: usize) -> (r: i64)
    requires
        mv_wf(*p, dim as int),
        qp@.len() == dim,
        comps_bounded(qp@),
        dim <= MAX_DIM,
    ensures
        r == best_part_score(qp@, *p, p.parts@.len() as int),
        -SCORE_LIMIT <= r <= SCORE_LIMIT,
{
    let mut best = dot(qp, &p.parts[0]);
    let mut w: usize = 1;
    while w < p.parts.len()
        invariant
            1 <= w <= p.parts@.len(),
            best == best_part_score(qp@, *p, w as int),
            -SCORE_LIMIT <= best <= SCORE_LIMIT,
        decreases p.parts@.len() - w,
    {
        let d = dot(qp, &p.parts[w]);
        if d > best {
            best = d;
        }
        w = w + 1;
    }
    best
}

/// Max-sim similarity between two well-formed multi-vectors; exact and
/// within [`MULTI_SCORE_LIMIT`], so it cannot overflow.
pub fn score_multivector(q: &MultiVector, p: &MultiVector, dim: usize) -> (r: i64)
    requires
        mv_wf(*q, dim as int),
        mv_wf(*p, dim as int),
        dim <= MAX_DIM,
    ensures
        r == maxsim(*q, *p),
        -MULTI_SCORE_LIMIT <= r <= MULTI_SCORE_LIMIT,
{
    let mut acc: i64 = 0;
    let mut i: usize = 0;
    while i < q.parts.len()
        invariant
            0 <= i <= q.parts@.len(),
            acc == maxsim_prefix(*q, *p, i as int),
            -(i as int) * SCORE_LIMIT <= acc as int <= (i as int) * SCORE_LIMIT,
        decreases q.parts@.len() - i,
    {
        let b = best_part(&q.parts[i], p, dim);
        acc = acc + b;
        i = i + 1;
    }
    acc
}

/// In-memory storage of multi-vector points, all parts of one dimension.
pub struct MultiVectorStorage {
    pub dim: usize,
    pub multis: Vec<MultiVector>,
}

impl MultiVectorStorage {
    pub open spec fn count(self) -> int {
        self.multis@.len() as int
    }

    pub open spec fn multi_at(self, p: int) -> MultiVector {
        self.multis@[p]
    }

    pub open spec fn wf(self) -> bool {
        &&& self.dim <= MAX_DIM
        &&& forall|p: int| 0 <= p < self.count() ==> mv_wf(#[trigger] self.multis@[p], self.dim as int)
    }

    pub fn new(dim: usize) -> (s: Self)
        requires
            dim <= MAX_DIM,
        ensures
            s.wf(),
            s.count() == 0,
            s.dim == dim,
    {
        MultiVectorStorage { dim, multis: Vec::new() }
    }

    pub fn push_multi(&mut self, v: MultiVector)
        requires
            old(self).wf(),
            mv_wf(v, old(self).dim as int),
        ensures
            final(self).wf(),
            final(self).dim == old(self).dim,
            final(self).count() == old(self).count() + 1,
            final(self).multi_at(old(self).count()) == v,
            forall|p: int|
                0 <= p < old(self).count() ==> final(self).multi_at(p) == old(self).multi_at(p),
    {
        self.multis.push(v);
    }

    pub fn len(&self) -> (n: usize)
        ensures
            n == self.count(),
    {
        self.multis.len()
    }
}

/// Scores a fixed multi-vector query against stored multi-vector points,
/// or two stored points against each other, under the max-sim aggregation
/// of the dot-product metric. The metric's preprocessing is the identity,
/// so `new` stores the query as given.
pub struct MetricQueryScorer<'a> {
    pub query: MultiVector,
    pub vector_storage: &'a MultiVectorStorage,
}

impl<'a> MetricQueryScorer<'a> {
    pub open spec fn wf(self) -> bool {
        &&& self.vector_storage.wf()
        &&& mv_wf(self.query, self.vector_storage.dim as int)
    }

    pub fn new(query: MultiVector, vector_storage: &'a MultiVectorStorage) -> (s: Self)
        requires
            vector_storage.wf(),
            mv_wf(query, vector_storage.dim as int),
        ensures
            s.wf(),
            s.query == query,
            s.vector_storage == vector_storage,
    {
        MetricQueryScorer { query, vector_storage }
    }

    /// Query against stored point `idx`.
    pub fn score_stored(&self, idx: u32) -> (r: i64)
        requires
            self.wf(),
            (idx as int) < self.vector_storage.count(),
        ensures
            r == maxsim(self.query, self.vector_storage.multi_at(idx as int)),
    {
        score_multivector(&self.query, &self.vector_storage.multis[idx as usize], self.vector_storage.dim)
    }

    /// Query against a free-standing multi-vector.
    pub fn score(&self, v2: &MultiVector) -> (r: i64)
        requires
            self.wf(),
            mv_wf(*v2, self.vector_storage.dim as int),
        ensures
            r == maxsim(self.query, *v2),
    {
        score_multivector(&self.query, v2, self.vector_storage.dim)
    }

    /// Stored point `point_a` against stored point `point_b`.
    pub fn score_internal(&self, point_a: u32, point_b: u32) -> (r: i64)
        requires
            self.wf(),
            (point_a as int) < self.vector_storage.count(),
            (point_b as int) < self.vector_storage.count(),
        ensures
            r == maxsim(
                self.vector_storage.multi_at(point_a as int),
                self.vector_storage.multi_at(point_b as int),
            ),
    {
        score_multivector(
            &self.vector_storage.multis[point_a as usize],
            &self.vector_storage.multis[point_b as usize],
            self.vector_storage.dim,
        )
    }
}

} // verus!
