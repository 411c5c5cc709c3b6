//! Vector storage and the filtered scorer façade.
//!
//! Vectors are dense rows of bounded signed integers; similarity is the dot
//! product, so higher scores mean more similar. The bounds on dimension and
//! component magnitude keep every score within [`SCORE_LIMIT`], so scoring
//! can never overflow and never produces a non-finite value.

use vstd::prelude::*;

use crate::scored::{distinct_u32, ScoredPointOffset};

verus! {

/// Largest admissible vector dimension.
pub const MAX_DIM: usize = 65536;

/// Largest admissible magnitude of a single vector component.
pub const MAX_COMPONENT: i64 = 1048576;

/// `MAX_COMPONENT * MAX_COMPONENT`: bound on one product term.
pub const SCORE_PER_TERM: i64 = 1099511627776;

/// `MAX_DIM * SCORE_PER_TERM`: every score `s` satisfies
/// `-SCORE_LIMIT <= s <= SCORE_LIMIT`.
pub const SCORE_LIMIT: i64 = 72057594037927936;

/// Every component within the admissible magnitude.
pub open spec fn comps_bounded(s: Seq<i64>) -> bool {
    forall|i: int| 0 <= i < s.len() ==> -MAX_COMPONENT <= #[trigger] s[i] <= MAX_COMPONENT
}

/// Sum of the first `n` products of paired components.
pub open spec fn dot_prefix(a: Seq<i64>, b: Seq<i64>, n: int) -> int
    decreases n,
{
    if n <= 0 {
        0
    } else {
        dot_prefix(a, b, n - 1) + a[n - 1] * b[n - 1]
    }
}

/// The dot product of two equal-length vectors.
pub open spec fn dot_spec(a: Seq<i64>, b: Seq<i64>) -> int {
    dot_prefix(a, b, a.len() as int)
}

pub proof fn lemma_dot_prefix_bound(a: Seq<i64>, b: Seq<i64>, n: int)
    requires
        0 <= n <= a.len(),
        n <= b.len(),
        comps_bounded(a),
        comps_bounded(b),
    ensures
        -n * SCORE_PER_TERM <= dot_prefix(a, b, n) <= n * SCORE_PER_TERM,
    decreases n,
{
    if n > 0 {
        lemma_dot_prefix_bound(a, b, n - 1);
        assert(-SCORE_PER_TERM <= a[n - 1] * b[n - 1] <= SCORE_PER_TERM) by (nonlinear_arith)
            requires
                -MAX_COMPONENT <= a[n - 1] <= MAX_COMPONENT,
                -MAX_COMPONENT <= b[n - 1] <= MAX_COMPONENT,
        ;
    }
}

/// In-memory storage of dense vectors, all of one dimension, with bounded
/// components.
pub struct VectorStorage {
    pub dim: usize,
    pub vectors: Vec<Vec<i64>>,
}

impl VectorStorage {
    pub open spec fn count(self) -> int {
        self.vectors@.len() as int
    }

    pub open spec fn vec_at(self, p: int) -> Seq<i64> {
        self.vectors@[p]@
    }

    pub open spec fn wf(self) -> bool {
        &&& self.dim <= MAX_DIM
        &&& forall|p: int| 0 <= p < self.count() ==> (#[trigger] self.vec_at(p)).len() == self.dim
            && comps_bounded(self.vec_at(p))
    }

    pub fn new(dim: usize) -> (s: Self)
        requires
            dim <= MAX_DIM,
        ensures
            s.wf(),
            s.count() == 0,
            s.dim == dim,
    {
        VectorStorage { dim, vectors: Vec::new() }
    }

    pub fn push_vector(&mut self, v: Vec<i64>)
        requires
            old(self).wf(),
            v@.len() == old(self).dim,
            comps_bounded(v@),
        ensures
            final(self).wf(),
            final(self).dim == old(self).dim,
            final(self).count() == old(self).count() + 1,
            final(self).vec_at(old(self).count()) == v@,
            forall|p: int| 0 <= p < old(self).count() ==> final(self).vec_at(p) == old(
                self,
            ).vec_at(p),
    {
        self.vectors.push(v);
        proof {
            assert forall|p: int| 0 <= p < self.count() implies (#[trigger] self.vec_at(p)).len()
                == self.dim && comps_bounded(self.vec_at(p)) by {
                if p < old(self).count() {
                    assert(self.vec_at(p) == old(self).vec_at(p));
                } else {
                    assert(self.vec_at(p) == v@);
                }
            }
        }
    }

    pub fn len(&self) -> (n: usize)
        ensures
            n == self.count(),
    {
        self.vectors.len()
    }
}

/// Dot product of two equal-length bounded vectors; exact, and within
/// [`SCORE_LIMIT`] so it cannot overflow.
pub fn dot(a: &Vec<i64>, b: &Vec<i64>) -> (r: i64)
    requires
        a@.len() == b@.len(),
        a@.len() <= MAX_DIM,
        comps_bounded(a@),
        comps_bounded(b@),
    ensures
        r == dot_spec(a@, b@),
        -SCORE_LIMIT <= r <= SCORE_LIMIT,
{
    let n = a.len();
    let mut acc: i64 = 0;
    let mut i: usize = 0;
    while i < n
        invariant
            0 <= i <= n,
            acc == dot_prefix(a@, b@, i as int),
            -(i as int) * SCORE_PER_TERM <= acc as int <= (i as int) * SCORE_PER_TERM,
        decreases n - i,
    {
        proof {
            assert(-SCORE_PER_TERM <= a@[i as int] * b@[i as int] <= SCORE_PER_TERM)
                by (nonlinear_arith)
                requires
                    -MAX_COMPONENT <= a@[i as int] <= MAX_COMPONENT,
                    -MAX_COMPONENT <= b@[i as int] <= MAX_COMPONENT,
            ;
        }
        acc = acc + a[i] * b[i];
        i = i + 1;
    }
    proof {
        lemma_dot_prefix_bound(a@, b@, n as int);
    }
    acc
}

/// Applies a point admissibility filter and scores points against a fixed
/// query vector, or two stored points against each other. Inadmissible ids
/// are filtered before scoring and are simply absent from batch results.
pub struct FilteredScorer<'a> {
    pub storage: &'a VectorStorage,
    pub query: Vec<i64>,
    pub filter: Option<&'a Vec<bool>>,
}

impl<'a> FilteredScorer<'a> {
    pub open spec fn s_count(self) -> int {
        self.storage.count()
    }

    pub open spec fn wf(self) -> bool {
        &&& self.storage.wf()
        &&& self.query@.len() == self.storage.dim
        &&& comps_bounded(self.query@)
        &&& match self.filter {
            Some(f) => f@.len() == self.s_count(),
            None => true,
        }
    }

    /// Is `id` a stored point admitted by the filter?
    pub open spec fn admits(self, id: int) -> bool {
        &&& 0 <= id < self.s_count()
        &&& match self.filter {
            Some(f) => f@[id],
            None => true,
        }
    }

    /// Score of the query against stored point `id`.
    pub open spec fn query_score(self, id: int) -> int {
        dot_spec(self.query@, self.storage.vec_at(id))
    }

    /// Score between two stored points.
    pub open spec fn pair_score(self, a: int, b: int) -> int {
        dot_spec(self.storage.vec_at(a), self.storage.vec_at(b))
    }

    pub fn new(storage: &'a VectorStorage, query: Vec<i64>, filter: Option<&'a Vec<bool>>) -> (s:
        Self)
        requires
            storage.wf(),
            query@.len() == storage.dim,
            comps_bounded(query@),
            filter is Some ==> filter->0@.len() == storage.count(),
        ensures
            s.wf(),
            s.storage == storage,
            s.query == query,
            s.filter == filter,
    {
        FilteredScorer { storage, query, filter }
    }

    pub fn check_vector(&self, id: u32) -> (r: bool)
        requires
            self.wf(),
        ensures
            r == self.admits(id as int),
    {
        if (id as usize) < self.storage.vectors.len() {
            match self.filter {
                Some(f) => f[id as usize],
                None => true,
            }
        } else {
            false
        }
    }

    pub fn score_point(&self, id: u32) -> (r: i64)
        requires
            self.wf(),
            (id as int) < self.s_count(),
        ensures
            r == self.query_score(id as int),
            -SCORE_LIMIT <= r <= SCORE_LIMIT,
    {
        proof {
            assert(self.storage.vec_at(id as int).len() == self.storage.dim);
        }
        dot(&self.query, &self.storage.vectors[id as usize])
    }

    pub fn score_internal(&self, point_a: u32, point_b: u32) -> (r: i64)
        requires
            self.wf(),
            (point_a as int) < self.s_count(),
            (point_b as int) < self.s_count(),
        ensures
            r == self.pair_score(point_a as int, point_b as int),
            -SCORE_LIMIT <= r <= SCORE_LIMIT,
    {
        proof {
            assert(self.storage.vec_at(point_a as int).len() == self.storage.dim);
            assert(self.storage.vec_at(point_b as int).len() == self.storage.dim);
        }
        dot(&self.storage.vectors[point_a as usize], &self.storage.vectors[point_b as usize])
    }

    /// The admissible ids of `ids`, in order, cut to the first `limit`.
    pub open spec fn admitted_prefix(self, ids: Seq<u32>, limit: int) -> Seq<u32>
        decreases ids.len(),
    {
        if ids.len() == 0 || limit <= 0 {
            Seq::empty()
        } else if self.admits(ids[0] as int) {
            seq![ids[0]] + self.admitted_prefix(ids.drop_first(), limit - 1)
        } else {
            self.admitted_prefix(ids.drop_first(), limit)
        }
    }

    pub proof fn lemma_admitted_prefix_push(self, s: Seq<u32>, y: u32, limit: int)
        ensures
            self.admitted_prefix(s.push(y), limit) == (if self.admitted_prefix(s, limit).len()
                < limit && self.admits(y as int) {
                self.admitted_prefix(s, limit).push(y)
            } else {
                self.admitted_prefix(s, limit)
            }),
        decreases s.len(),
    {
        if limit <= 0 {
            assert(self.admitted_prefix(s.push(y), limit) =~= self.admitted_prefix(s, limit));
        } else if s.len() == 0 {
            assert(s.push(y)[0] == y);
            assert(s.push(y).drop_first() =~= Seq::<u32>::empty());
            assert(self.admitted_prefix(Seq::<u32>::empty(), limit - 1) == Seq::<u32>::empty());
            assert(self.admitted_prefix(s, limit) == Seq::<u32>::empty());
            if self.admits(y as int) {
                assert(self.admitted_prefix(s.push(y), limit) == seq![y] + self.admitted_prefix(
                    s.push(y).drop_first(),
                    limit - 1,
                ));
                assert(self.admitted_prefix(s.push(y), limit) =~= self.admitted_prefix(
                    s,
                    limit,
                ).push(y));
            } else {
                assert(self.admitted_prefix(s.push(y), limit) == self.admitted_prefix(
                    s.push(y).drop_first(),
                    limit,
                ));
                assert(self.admitted_prefix(Seq::<u32>::empty(), limit) == Seq::<u32>::empty());
            }
        } else {
            assert(s.push(y).drop_first() =~= s.drop_first().push(y));
            assert(s.push(y)[0] == s[0]);
            if self.admits(s[0] as int) {
                self.lemma_admitted_prefix_push(s.drop_first(), y, limit - 1);
                let rec = self.admitted_prefix(s.drop_first(), limit - 1);
                assert(self.admitted_prefix(s, limit) == seq![s[0]] + rec);
                assert(self.admitted_prefix(s.push(y), limit) == seq![s[0]]
                    + self.admitted_prefix(s.drop_first().push(y), limit - 1));
                assert((seq![s[0]] + rec).len() == 1 + rec.len());
                if rec.len() < limit - 1 && self.admits(y as int) {
                    assert(seq![s[0]] + rec.push(y) =~= (seq![s[0]] + rec).push(y));
                }
            } else {
                self.lemma_admitted_prefix_push(s.drop_first(), y, limit);
                assert(self.admitted_prefix(s, limit) == self.admitted_prefix(
                    s.drop_first(),
                    limit,
                ));
                assert(self.admitted_prefix(s.push(y), limit) == self.admitted_prefix(
                    s.drop_first().push(y),
                    limit,
                ));
            }
        }
    }

    pub proof fn lemma_admitted_prefix_props(self, s: Seq<u32>, limit: int)
        ensures
            self.admitted_prefix(s, limit).len() <= (if limit >= 0 {
                limit
            } else {
                0
            }),
            self.admitted_prefix(s, limit).len() <= s.len(),
            forall|i: int|
                0 <= i < self.admitted_prefix(s, limit).len() ==> self.admits(
                    #[trigger] self.admitted_prefix(s, limit)[i] as int,
                ) && s.contains(self.admitted_prefix(s, limit)[i]),
            distinct_u32(s) ==> distinct_u32(self.admitted_prefix(s, limit)),
        decreases s.len(),
    {
        if s.len() == 0 || limit <= 0 {
        } else {
            let rest = s.drop_first();
            assert(forall|i: int| 0 <= i < rest.len() ==> rest[i] == s[i + 1]);
            assert forall|y: u32| rest.contains(y) implies s.contains(y) by {
                let i = choose|i: int| 0 <= i < rest.len() && rest[i] == y;
                assert(s[i + 1] == y);
            }
            if self.admits(s[0] as int) {
                self.lemma_admitted_prefix_props(rest, limit - 1);
                let ap = self.admitted_prefix(s, limit);
                let apr = self.admitted_prefix(rest, limit - 1);
                assert(ap == seq![s[0]] + apr);
                assert(ap[0] == s[0]);
                assert(forall|i: int| 1 <= i < ap.len() ==> ap[i] == apr[i - 1]);
                if distinct_u32(s) {
                    assert(distinct_u32(rest));
                    assert forall|i: int, j: int| 0 <= i < j < ap.len() implies ap[i] != ap[j] by {
                        if i == 0 {
                            assert(rest.contains(apr[j - 1]));
                            let k = choose|k: int| 0 <= k < rest.len() && rest[k] == apr[j - 1];
                            assert(s[k + 1] == apr[j - 1]);
                        }
                    }
                }
            } else {
                self.lemma_admitted_prefix_props(rest, limit);
            }
        }
    }

    /// With a limit at least as large as the sequence, every admissible id
    /// survives the cut.
    pub proof fn lemma_admitted_prefix_complete(self, s: Seq<u32>, limit: int)
        requires
            limit >= s.len(),
        ensures
            forall|i: int|
                0 <= i < s.len() && self.admits(#[trigger] s[i] as int) ==> self.admitted_prefix(
                    s,
                    limit,
                ).contains(s[i]),
        decreases s.len(),
    {
        if s.len() > 0 {
            let rest = s.drop_first();
            assert(forall|i: int| 0 <= i < rest.len() ==> rest[i] == s[i + 1]);
            if self.admits(s[0] as int) {
                self.lemma_admitted_prefix_complete(rest, limit - 1);
                let ap = self.admitted_prefix(s, limit);
                let apr = self.admitted_prefix(rest, limit - 1);
                assert(ap == seq![s[0]] + apr);
                assert(ap[0] == s[0]);
                assert forall|i: int|
                    0 <= i < s.len() && self.admits(#[trigger] s[i] as int) implies ap.contains(
                    s[i],
                ) by {
                    if i == 0 {
                    } else {
                        assert(rest[i - 1] == s[i]);
                        assert(apr.contains(s[i]));
                        let w = choose|w: int| 0 <= w < apr.len() && apr[w] == s[i];
                        assert(ap[w + 1] == s[i]);
                    }
                }
            } else {
                self.lemma_admitted_prefix_complete(rest, limit);
                let ap = self.admitted_prefix(s, limit);
                assert forall|i: int|
                    0 <= i < s.len() && self.admits(#[trigger] s[i] as int) implies ap.contains(
                    s[i],
                ) by {
                    assert(i != 0);
                    assert(rest[i - 1] == s[i]);
                }
            }
        }
    }

    /// Batch scoring: keep the admissible ids of `ids` in order, cut to the
    /// first `limit`, and score each against the query. `ids` is left holding
    /// exactly the ids that were scored.
    pub fn score_points(&self, ids: &mut Vec<u32>, limit: usize) -> (r: Vec<ScoredPointOffset>)
        requires
            self.wf(),
        ensures
            final(ids)@ == self.admitted_prefix(old(ids)@, limit as int),
            r@.len() == final(ids)@.len(),
            forall|i: int|
                0 <= i < r@.len() ==> (#[trigger] r@[i]).idx == final(ids)@[i] && r@[i].score
                    == self.query_score(final(ids)@[i] as int) && -SCORE_LIMIT <= r@[i].score
                    <= SCORE_LIMIT,
    {
        let ghost orig = ids@;
        let mut kept: Vec<u32> = Vec::new();
        let mut i: usize = 0;
        while i < ids.len()
            invariant
                0 <= i <= ids@.len(),
                ids@ == orig,
                kept@ == self.admitted_prefix(orig.take(i as int), limit as int),
                kept@.len() <= limit,
            decreases ids@.len() - i,
        {
            let id = ids[i];
            proof {
                assert(orig.take(i as int + 1) =~= orig.take(i as int).push(id));
                self.lemma_admitted_prefix_push(orig.take(i as int), id, limit as int);
                self.lemma_admitted_prefix_props(orig.take(i as int + 1), limit as int);
            }
            if kept.len() < limit && self.check_vector(id) {
                kept.push(id);
            }
            i = i + 1;
        }
        proof {
            assert(orig.take(orig.len() as int) =~= orig);
            self.lemma_admitted_prefix_props(orig, limit as int);
        }
        let mut r: Vec<ScoredPointOffset> = Vec::new();
        let mut j: usize = 0;
        while j < kept.len()
            invariant
                0 <= j <= kept@.len(),
                kept@ == self.admitted_prefix(orig, limit as int),
                r@.len() == j,
                forall|t: int|
                    0 <= t < j ==> (#[trigger] r@[t]).idx == kept@[t] && r@[t].score
                        == self.query_score(kept@[t] as int) && -SCORE_LIMIT <= r@[t].score
                        <= SCORE_LIMIT,
            decreases kept@.len() - j,
        {
            let id = kept[j];
            let score = self.score_point(id);
            r.push(ScoredPointOffset { idx: id, score });
            j = j + 1;
        }
        *ids = kept;
        r
    }
}

} // verus!
