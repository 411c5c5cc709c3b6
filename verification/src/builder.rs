//! The insertion engine and the layered link store.
//!
//! `GraphLinearBuilder` owns per-point, per-layer adjacency lists and grows
//! them one insertion at a time: greedy descent from a seed of the
//! entry-point registry, a bounded beam search on each layer, heuristic
//! neighbor selection, forward-link installation and reciprocal link
//! maintenance. After every completed insertion the graph invariants hold:
//! every list is within its layer's capacity, holds no duplicates, never
//! links a point to itself, and links only to already-inserted points that
//! occupy that layer.

use vstd::prelude::*;
use vstd::pervasive::VecAdditionalExecFns;

use crate::entry::{first_admissible_from, lemma_first_admissible_bounds, EntryPoint, EntryPoints};
use crate::heuristic::{
    lemma_select_nonempty, lemma_select_rec_props, lemma_select_rec_push, sel_good, select_rec,
    select_spec,
};
use crate::queue::{insert_desc, lemma_insert_desc_props, push_admits, qpush_spec,
    CandidateFrontier, FixedLengthPriorityQueue};
use crate::scored::{distinct_ids, distinct_u32, ranks_before, sorted_desc, ScoredPointOffset};
use crate::scorer::{dot_spec, FilteredScorer, SCORE_LIMIT};
use crate::visited::VisitedPool;
use crate::HnswError;

verus! {

/// Every element carries its true query score, within the score bounds.
pub open spec fn true_scores(sc: FilteredScorer, s: Seq<ScoredPointOffset>) -> bool {
    forall|i: int|
        0 <= i < s.len() ==> (#[trigger] s[i]).score == sc.query_score(s[i].idx as int)
            && -SCORE_LIMIT <= s[i].score <= SCORE_LIMIT
}

/// A set of ids drawn from `[0, n)` is finite and no larger than `n`.
pub proof fn lemma_card_bounded(s: Set<int>, n: int)
    requires
        0 <= n,
        forall|x: int| s.contains(x) ==> 0 <= x < n,
    ensures
        s.finite(),
        s.len() <= n,
{
    vstd::set_lib::lemma_int_range(0, n);
    assert(s <= vstd::set_lib::set_int_range(0, n));
    vstd::set_lib::lemma_len_subset(s, vstd::set_lib::set_int_range(0, n));
}

/// The graph invariants do not depend on the visited pool: a builder that
/// differs from a well-formed one only in its pool stays well-formed as long
/// as the pool itself is and keeps its configured maximum.
pub proof fn lemma_wf_pool_change(a: GraphLinearBuilder, b: GraphLinearBuilder)
    requires
        a.wf(),
        b.links_layers == a.links_layers,
        b.entry_points == a.entry_points,
        b.inserted == a.inserted,
        b.m == a.m,
        b.m0 == a.m0,
        b.ef_construct == a.ef_construct,
        b.visited_pool.wf(),
        b.visited_pool.max_capacity == a.visited_pool.max_capacity,
    ensures
        b.wf(),
{
    assert forall|p: int| 0 <= p < b.point_count() implies #[trigger] b.layers_of(p) >= 1 by {
        assert(a.layers_of(p) >= 1);
    }
    assert forall|p: int, l: int|
        0 <= p < b.point_count() && 0 <= l < b.layers_of(p) implies #[trigger] b.list_ok(
        b.inserted@,
        p,
        l,
    ) by {
        assert(a.list_ok(a.inserted@, p, l));
        assert(b.list_at(p, l) == a.list_at(p, l));
        assert forall|i: int| 0 <= i < b.list_at(p, l).len() implies b.link_ok(
            b.inserted@,
            p,
            l,
            #[trigger] b.list_at(p, l)[i],
        ) by {
            assert(a.link_ok(a.inserted@, p, l, a.list_at(p, l)[i]));
        }
    }
    assert forall|p: int, l: int|
        0 <= p < b.point_count() && 0 <= l < b.layers_of(p) && !b.inserted@.contains(p) implies (
    #[trigger] b.list_at(p, l)).len() == 0 by {
        assert(a.list_at(p, l) == b.list_at(p, l));
    }
    assert(b.entries_ok()) by {
        assert forall|i: int|
            0 <= i < b.entry_points@.len() implies ((#[trigger] b.entry_points@[i]).point_id
                as int) < b.point_count() && b.entry_points@[i].level + 1 == b.layers_of(
                b.entry_points@[i].point_id as int,
            ) && b.inserted@.contains(b.entry_points@[i].point_id as int) by {
            assert(((#[trigger] a.entry_points@[i]).point_id as int) < a.point_count()
                && a.entry_points@[i].level + 1 == a.layers_of(a.entry_points@[i].point_id as int)
                && a.inserted@.contains(a.entry_points@[i].point_id as int));
        }
    }
}

/// The link-store invariants, stated plainly for every point and layer of
/// a well-formed builder: the cap is respected (at most `m0` links on the
/// base layer, `m` above it), there are no self-loops, and each neighbor
/// list holds no duplicates.
pub proof fn lemma_link_store_invariants(b: GraphLinearBuilder, p: int, l: int)
    requires
        b.wf(),
        0 <= p < b.point_count(),
        0 <= l < b.layers_of(p),
    ensures
        b.list_at(p, l).len() <= b.spec_m(l),
        !b.list_at(p, l).contains(p as u32),
        distinct_u32(b.list_at(p, l)),
{
    assert(b.list_ok(b.inserted@, p, l));
    if b.list_at(p, l).contains(p as u32) {
        let w = choose|w: int| 0 <= w < b.list_at(p, l).len() && b.list_at(p, l)[w] == p as u32;
        assert(b.link_ok(b.inserted@, p, l, b.list_at(p, l)[w]));
    }
}

/// Replacing the registry preserves the graph invariants as long as every
/// descriptor of the new registry is sound for the same graph.
pub proof fn lemma_wf_entries_change(a: GraphLinearBuilder, b: GraphLinearBuilder)
    requires
        a.wf(),
        b.links_layers == a.links_layers,
        b.visited_pool == a.visited_pool,
        b.inserted == a.inserted,
        b.m == a.m,
        b.m0 == a.m0,
        b.ef_construct == a.ef_construct,
        forall|i: int|
            0 <= i < b.entry_points@.len() ==> ((#[trigger] b.entry_points@[i]).point_id as int)
                < a.point_count() && b.entry_points@[i].level + 1 == a.layers_of(
                b.entry_points@[i].point_id as int,
            ) && a.inserted@.contains(b.entry_points@[i].point_id as int),
    ensures
        b.wf(),
{
    assert forall|p: int| 0 <= p < b.point_count() implies #[trigger] b.layers_of(p) >= 1 by {
        assert(a.layers_of(p) >= 1);
    }
    assert forall|p: int, l: int|
        0 <= p < b.point_count() && 0 <= l < b.layers_of(p) implies #[trigger] b.list_ok(
        b.inserted@,
        p,
        l,
    ) by {
        assert(a.list_ok(a.inserted@, p, l));
        assert(b.list_at(p, l) == a.list_at(p, l));
        assert forall|i: int| 0 <= i < b.list_at(p, l).len() implies b.link_ok(
            b.inserted@,
            p,
            l,
            #[trigger] b.list_at(p, l)[i],
        ) by {
            assert(a.link_ok(a.inserted@, p, l, a.list_at(p, l)[i]));
        }
    }
    assert forall|p: int, l: int|
        0 <= p < b.point_count() && 0 <= l < b.layers_of(p) && !b.inserted@.contains(p) implies (
    #[trigger] b.list_at(p, l)).len() == 0 by {
        assert(a.list_at(p, l) == b.list_at(p, l));
    }
}

/// Marking one more in-range id as inserted preserves the graph
/// invariants: every condition they state is monotone in the inserted set.
pub proof fn lemma_wf_insert_inserted(a: GraphLinearBuilder, b: GraphLinearBuilder, x: int)
    requires
        a.wf(),
        b.links_layers == a.links_layers,
        b.entry_points == a.entry_points,
        b.visited_pool == a.visited_pool,
        b.m == a.m,
        b.m0 == a.m0,
        b.ef_construct == a.ef_construct,
        b.inserted@ == a.inserted@.insert(x),
        0 <= x < a.point_count(),
    ensures
        b.wf(),
{
    assert forall|p: int| 0 <= p < b.point_count() implies #[trigger] b.layers_of(p) >= 1 by {
        assert(a.layers_of(p) >= 1);
    }
    assert forall|p: int, l: int|
        0 <= p < b.point_count() && 0 <= l < b.layers_of(p) implies #[trigger] b.list_ok(
        b.inserted@,
        p,
        l,
    ) by {
        assert(a.list_ok(a.inserted@, p, l));
        assert(b.list_at(p, l) == a.list_at(p, l));
        assert forall|i: int| 0 <= i < b.list_at(p, l).len() implies b.link_ok(
            b.inserted@,
            p,
            l,
            #[trigger] b.list_at(p, l)[i],
        ) by {
            assert(a.link_ok(a.inserted@, p, l, a.list_at(p, l)[i]));
        }
    }
    assert forall|p: int, l: int|
        0 <= p < b.point_count() && 0 <= l < b.layers_of(p) && !b.inserted@.contains(p) implies (
    #[trigger] b.list_at(p, l)).len() == 0 by {
        assert(!a.inserted@.contains(p));
        assert(a.list_at(p, l) == b.list_at(p, l));
    }
    assert(b.entries_ok()) by {
        assert forall|i: int|
            0 <= i < b.entry_points@.len() implies ((#[trigger] b.entry_points@[i]).point_id
                as int) < b.point_count() && b.entry_points@[i].level + 1 == b.layers_of(
                b.entry_points@[i].point_id as int,
            ) && b.inserted@.contains(b.entry_points@[i].point_id as int) by {
            assert(((#[trigger] a.entry_points@[i]).point_id as int) < a.point_count()
                && a.entry_points@[i].level + 1 == a.layers_of(a.entry_points@[i].point_id as int)
                && a.inserted@.contains(a.entry_points@[i].point_id as int));
        }
    }
}


/// Every element is the anchor, one of the point's existing links, or a
/// point the filter admits: nothing inadmissible is discovered by a search.
pub open spec fn known_or_admitted(
    sc: FilteredScorer,
    entry_idx: u32,
    existing: Seq<u32>,
    s: Seq<ScoredPointOffset>,
) -> bool {
    forall|i: int|
        0 <= i < s.len() ==> ((#[trigger] s[i]).idx == entry_idx || existing.contains(s[i].idx)
            || sc.admits(s[i].idx as int))
}

/// One neighbor list of a layered link store, as a plain value.
pub open spec fn links_list_at(links: Vec<Vec<Vec<u32>>>, p: int, l: int) -> Seq<u32> {
    links@[p]@[l]@
}

/// A batch of ids, each paired with its true query score.
pub open spec fn scored_seq(sc: FilteredScorer, ids: Seq<u32>) -> Seq<ScoredPointOffset> {
    Seq::new(
        ids.len(),
        |i: int| ScoredPointOffset { idx: ids[i], score: sc.query_score(ids[i] as int) as i64 },
    )
}

/// The gather step of the beam search: walk one neighbor list from
/// position `t`, collect the ids not yet visited, and mark each.
pub open spec fn gather_rec(visited: Set<int>, lst: Seq<u32>, t: int) -> (Seq<u32>, Set<int>)
    decreases lst.len() - t,
{
    if t < 0 || t >= lst.len() {
        (Seq::empty(), visited)
    } else {
        let x = lst[t];
        if visited.contains(x as int) {
            gather_rec(visited, lst, t + 1)
        } else {
            let rest = gather_rec(visited.insert(x as int), lst, t + 1);
            (seq![x] + rest.0, rest.1)
        }
    }
}

/// The admission step of the beam search: offer each scored batch element,
/// from position `u`, to the best-so-far queue and, when admitted, to the
/// frontier.
pub open spec fn feed_rec(
    nearest: Seq<ScoredPointOffset>,
    frontier: Seq<ScoredPointOffset>,
    ef: int,
    scored: Seq<ScoredPointOffset>,
    u: int,
) -> (Seq<ScoredPointOffset>, Seq<ScoredPointOffset>)
    decreases scored.len() - u,
{
    if u < 0 || u >= scored.len() {
        (nearest, frontier)
    } else {
        let x = scored[u];
        let n2 = qpush_spec(nearest, ef, x);
        let f2 = if push_admits(nearest, ef, x) {
            insert_desc(frontier, x)
        } else {
            frontier
        };
        feed_rec(n2, f2, ef, scored, u + 1)
    }
}

/// The main beam-search loop: pop the best frontier candidate; stop when it
/// cannot improve on the worst of the best; otherwise gather its unvisited
/// neighbors on the layer, keep the first `m_cap` admissible ones, score
/// them, and feed them through the queues. `fuel` bounds the iterations;
/// one more than the point count always suffices, because every iteration
/// either marks a fresh id or shrinks the frontier.
pub open spec fn beam_rec(
    links: Vec<Vec<Vec<u32>>>,
    sc: FilteredScorer,
    level: int,
    m_cap: int,
    nearest: Seq<ScoredPointOffset>,
    frontier: Seq<ScoredPointOffset>,
    visited: Set<int>,
    ef: int,
    fuel: nat,
) -> (Seq<ScoredPointOffset>, Set<int>)
    decreases fuel,
{
    if fuel == 0 || frontier.len() == 0 {
        (nearest, visited)
    } else {
        let c = frontier[0];
        let lower = if nearest.len() == 0 {
            i64::MIN as int
        } else {
            nearest.last().score as int
        };
        if (c.score as int) < lower {
            (nearest, visited)
        } else {
            let g = gather_rec(visited, links_list_at(links, c.idx as int, level), 0);
            let scored = scored_seq(sc, sc.admitted_prefix(g.0, m_cap));
            let fed = feed_rec(nearest, frontier.drop_first(), ef, scored, 0);
            beam_rec(links, sc, level, m_cap, fed.0, fed.1, g.1, ef, (fuel - 1) as nat)
        }
    }
}

/// The after-pass over the point's own existing links: each one not yet
/// visited is scored against the query and offered to the queue.
pub open spec fn exist_rec(
    sc: FilteredScorer,
    nearest: Seq<ScoredPointOffset>,
    visited: Set<int>,
    existing: Seq<u32>,
    ef: int,
    t: int,
) -> Seq<ScoredPointOffset>
    decreases existing.len() - t,
{
    if t < 0 || t >= existing.len() {
        nearest
    } else {
        let e = existing[t];
        let n2 = if !visited.contains(e as int) {
            qpush_spec(
                nearest,
                ef,
                ScoredPointOffset { idx: e, score: sc.query_score(e as int) as i64 },
            )
        } else {
            nearest
        };
        exist_rec(sc, n2, visited, existing, ef, t + 1)
    }
}

/// What one bounded beam search on `level` returns: queue and frontier
/// seeded with the anchor, the anchor marked visited, then the main loop
/// followed by the existing-links pass.
pub open spec fn beam_spec(
    links: Vec<Vec<Vec<u32>>>,
    sc: FilteredScorer,
    entry: ScoredPointOffset,
    level: int,
    m_cap: int,
    ef: int,
    existing: Seq<u32>,
) -> Seq<ScoredPointOffset> {
    let init = insert_desc(Seq::empty(), entry);
    let main = beam_rec(
        links,
        sc,
        level,
        m_cap,
        init,
        init,
        Set::empty().insert(entry.idx as int),
        ef,
        (links@.len() + 1) as nat,
    );
    exist_rec(sc, main.0, main.1, existing, ef, 0)
}

/// The reciprocal-maintenance candidate set for neighbor `n`: the new
/// point and the first `t` of `n`'s existing links, each scored against
/// `n`, assembled in descending rank order.
pub open spec fn recip_fold(
    sc: FilteredScorer,
    point_id: u32,
    n: u32,
    lst: Seq<u32>,
    t: int,
) -> Seq<ScoredPointOffset>
    decreases t,
{
    if t <= 0 {
        insert_desc(
            Seq::empty(),
            ScoredPointOffset {
                idx: point_id,
                score: sc.pair_score(point_id as int, n as int) as i64,
            },
        )
    } else {
        insert_desc(
            recip_fold(sc, point_id, n, lst, t - 1),
            ScoredPointOffset {
                idx: lst[t - 1],
                score: sc.pair_score(lst[t - 1] as int, n as int) as i64,
            },
        )
    }
}

/// Copy a neighbor list.
pub fn copy_links(src: &Vec<u32>) -> (r: Vec<u32>)
    ensures
        r@ == src@,
{
    let mut r: Vec<u32> = Vec::new();
    let mut i: usize = 0;
    while i < src.len()
        invariant
            0 <= i <= src@.len(),
            r@ == src@.take(i as int),
        decreases src@.len() - i,
    {
        r.push(src[i]);
        proof {
            assert(r@ =~= src@.take(i as int + 1));
        }
        i = i + 1;
    }
    proof {
        assert(src@.take(src@.len() as int) =~= src@);
    }
    r
}

/// The outcome of linking one point on one layer: the point's own new
/// forward links and the re-pruned lists of the chosen neighbors, ready to
/// be applied to the link store.
pub struct GraphLinkResponse {
    pub point_id: u32,
    pub level: usize,
    pub entry: Option<ScoredPointOffset>,
    pub links: Vec<u32>,
    pub neighbor_ids: Vec<u32>,
    pub neighbor_links: Vec<Vec<u32>>,
}

/// Builder of the layered HNSW graph over a fixed set of point ids, one
/// insertion per id, in any order consistent with the pre-sampled layers.
pub struct GraphLinearBuilder {
    pub m: usize,
    pub m0: usize,
    pub ef_construct: usize,
    pub links_layers: Vec<Vec<Vec<u32>>>,
    pub entry_points: EntryPoints,
    pub visited_pool: VisitedPool,
    /// The ids already handed to `link_new_point`.
    pub inserted: Ghost<Set<int>>,
}

impl GraphLinearBuilder {
    pub open spec fn point_count(self) -> int {
        self.links_layers@.len() as int
    }

    pub open spec fn layers_of(self, p: int) -> int {
        self.links_layers@[p]@.len() as int
    }

    pub open spec fn list_at(self, p: int, l: int) -> Seq<u32> {
        self.links_layers@[p]@[l]@
    }

    /// The per-layer out-degree cap: `m0` on the base layer, `m` above it.
    pub open spec fn spec_m(self, level: int) -> int {
        if level == 0 {
            self.m0 as int
        } else {
            self.m as int
        }
    }

    /// One admissible link: not a self-loop, in range, occupying the layer,
    /// and pointing at an already-inserted point.
    pub open spec fn link_ok(self, ins: Set<int>, p: int, l: int, q: u32) -> bool {
        &&& (q as int) != p
        &&& (q as int) < self.point_count()
        &&& l < self.layers_of(q as int)
        &&& ins.contains(q as int)
    }

    /// One admissible neighbor list: within the layer cap, duplicate-free,
    /// every link admissible.
    pub open spec fn list_ok(self, ins: Set<int>, p: int, l: int) -> bool {
        &&& self.list_at(p, l).len() <= self.spec_m(l)
        &&& distinct_u32(self.list_at(p, l))
        &&& forall|i: int|
            0 <= i < self.list_at(p, l).len() ==> self.link_ok(
                ins,
                p,
                l,
                #[trigger] self.list_at(p, l)[i],
            )
    }

    /// The graph invariants, relative to the set of inserted ids.
    pub open spec fn links_wf(self, ins: Set<int>) -> bool {
        &&& forall|p: int| 0 <= p < self.point_count() ==> #[trigger] self.layers_of(p) >= 1
        &&& forall|p: int, l: int|
            0 <= p < self.point_count() && 0 <= l < self.layers_of(p)
                ==> #[trigger] self.list_ok(ins, p, l)
    }

    /// A point that was never inserted has only empty lists.
    pub open spec fn fresh_points_empty(self, ins: Set<int>) -> bool {
        forall|p: int, l: int|
            0 <= p < self.point_count() && 0 <= l < self.layers_of(p) && !ins.contains(p) ==> (
            #[trigger] self.list_at(p, l)).len() == 0
    }

    /// Every registry descriptor names an inserted point at its exact top
    /// layer.
    pub open spec fn entries_ok(self) -> bool {
        forall|i: int|
            0 <= i < self.entry_points@.len() ==> ((#[trigger] self.entry_points@[i]).point_id
                as int) < self.point_count() && self.entry_points@[i].level + 1 == self.layers_of(
                self.entry_points@[i].point_id as int,
            ) && self.inserted@.contains(self.entry_points@[i].point_id as int)
    }

    pub open spec fn wf(self) -> bool {
        &&& self.m >= 1
        &&& self.m0 >= 1
        &&& self.ef_construct >= 1
        &&& self.point_count() <= u32::MAX as int
        &&& self.links_wf(self.inserted@)
        &&& self.fresh_points_empty(self.inserted@)
        &&& (forall|x: int| self.inserted@.contains(x) ==> 0 <= x < self.point_count())
        &&& self.entries_ok()
        &&& self.visited_pool.wf()
        &&& self.visited_pool.max_capacity as int == self.point_count()
    }

    /// The scorer covers exactly this builder's points.
    pub open spec fn scorer_ok(self, scorer: FilteredScorer) -> bool {
        &&& scorer.wf()
        &&& scorer.s_count() == self.point_count()
    }

    /// Create an empty builder over `levels.len()` points; the element at
    /// index `p` is point `p`'s pre-sampled top layer, so its slot holds
    /// `levels[p] + 1` empty lists.
    pub fn new(
        levels: Vec<usize>,
        m: usize,
        m0: usize,
        ef_construct: usize,
        entry_points_num: usize,
    ) -> (r: Self)
        requires
            m >= 1,
            m0 >= 1,
            ef_construct >= 1,
            levels@.len() <= u32::MAX,
            forall|p: int| 0 <= p < levels@.len() ==> #[trigger] levels@[p] < usize::MAX,
        ensures
            r.wf(),
            r.point_count() == levels@.len(),
            forall|p: int| 0 <= p < levels@.len() ==> #[trigger] r.layers_of(p) == levels@[p] + 1,
            forall|p: int, l: int|
                0 <= p < levels@.len() && 0 <= l < r.layers_of(p) ==> (#[trigger] r.list_at(
                    p,
                    l,
                )).len() == 0,
            r.inserted@ == Set::<int>::empty(),
            r.entry_points@ == Seq::<EntryPoint>::empty(),
            r.m == m,
            r.m0 == m0,
            r.ef_construct == ef_construct,
            r.entry_points.num == entry_points_num,
    {
        let mut links_layers: Vec<Vec<Vec<u32>>> = Vec::new();
        let n = levels.len();
        let mut p: usize = 0;
        while p < n
            invariant
                0 <= p <= n,
                n == levels@.len(),
                links_layers@.len() == p,
                forall|q: int|
                    0 <= q < p ==> (#[trigger] links_layers@[q])@.len() == levels@[q] + 1,
                forall|q: int, l: int|
                    0 <= q < p && 0 <= l < links_layers@[q]@.len() ==> (#[trigger] links_layers@[q]@[l])@.len()
                        == 0,
            decreases n - p,
        {
            let level = levels[p];
            let mut point_layers: Vec<Vec<u32>> = Vec::new();
            while point_layers.len() <= level
                invariant
                    point_layers@.len() <= level + 1,
                    forall|l: int|
                        0 <= l < point_layers@.len() ==> (#[trigger] point_layers@[l])@.len() == 0,
                decreases level + 1 - point_layers@.len(),
            {
                let links: Vec<u32> = Vec::new();
                point_layers.push(links);
            }
            links_layers.push(point_layers);
            p = p + 1;
        }
        let r = GraphLinearBuilder {
            m,
            m0,
            ef_construct,
            links_layers,
            entry_points: EntryPoints::new(entry_points_num),
            visited_pool: VisitedPool::new(n),
            inserted: Ghost(Set::empty()),
        };
        r
    }

    /// The out-degree cap of a layer.
    pub fn get_m(&self, level: usize) -> (r: usize)
        ensures
            r == self.spec_m(level as int),
    {
        if level == 0 {
            self.m0
        } else {
            self.m
        }
    }

    /// A point's top layer.
    pub fn get_point_level(&self, point_id: u32) -> (r: usize)
        requires
            self.wf(),
            (point_id as int) < self.point_count(),
        ensures
            r + 1 == self.layers_of(point_id as int),
    {
        proof {
            assert(self.layers_of(point_id as int) >= 1);
        }
        self.links_layers[point_id as usize].len() - 1
    }

    /// A scored candidate fit to take part in a search on `level`: in range,
    /// occupying the layer, and already inserted.
    pub open spec fn spo_ok(self, ins: Set<int>, level: int, x: ScoredPointOffset) -> bool {
        &&& (x.idx as int) < self.point_count()
        &&& level < self.layers_of(x.idx as int)
        &&& ins.contains(x.idx as int)
    }

    pub open spec fn spos_ok(self, ins: Set<int>, level: int, s: Seq<ScoredPointOffset>) -> bool {
        forall|i: int| 0 <= i < s.len() ==> self.spo_ok(ins, level, #[trigger] s[i])
    }

    /// `x` appears in some neighbor list on `level`.
    pub open spec fn from_level(self, level: int, x: u32) -> bool {
        exists|q: int|
            0 <= q < self.point_count() && level < self.layers_of(q) && (#[trigger] self.list_at(
                q,
                level,
            )).contains(x)
    }

    /// A link-on-one-layer outcome fit to be applied: the point's own list
    /// and each re-pruned neighbor list satisfy the graph invariants, where
    /// the neighbor lists may already name the point being inserted.
    pub open spec fn response_ok(self, ins: Set<int>, r: GraphLinkResponse) -> bool {
        &&& (r.point_id as int) < self.point_count()
        &&& (r.level as int) < self.layers_of(r.point_id as int)
        &&& r.links@.len() <= self.spec_m(r.level as int)
        &&& distinct_u32(r.links@)
        &&& forall|i: int|
            0 <= i < r.links@.len() ==> self.link_ok(
                ins,
                r.point_id as int,
                r.level as int,
                #[trigger] r.links@[i],
            )
        &&& r.neighbor_ids@ == r.links@
        &&& r.neighbor_links@.len() == r.neighbor_ids@.len()
        &&& forall|k: int|
            0 <= k < r.neighbor_links@.len() ==> self.neighbor_list_ok(
                ins,
                r.point_id,
                r.level as int,
                r.neighbor_ids@[k],
                (#[trigger] r.neighbor_links@[k])@,
            )
    }

    /// One re-pruned neighbor list, fit to replace `links[nid][level]` while
    /// `point_id` is being inserted.
    pub open spec fn neighbor_list_ok(
        self,
        ins: Set<int>,
        point_id: u32,
        level: int,
        nid: u32,
        lst: Seq<u32>,
    ) -> bool {
        &&& lst.len() <= self.spec_m(level)
        &&& distinct_u32(lst)
        &&& forall|i: int|
            0 <= i < lst.len() ==> self.link_ok(
                ins.insert(point_id as int),
                nid as int,
                level,
                #[trigger] lst[i],
            )
    }

    /// Install a link response: overwrite the point's list on the response's
    /// layer, then each chosen neighbor's list. Marks the point inserted.
    pub fn apply_link_response(&mut self, response: &GraphLinkResponse)
        requires
            old(self).wf(),
            old(self).response_ok(old(self).inserted@, *response),
        ensures
            final(self).wf(),
            final(self).inserted@ == old(self).inserted@.insert(response.point_id as int),
            final(self).point_count() == old(self).point_count(),
            final(self).m == old(self).m,
            final(self).m0 == old(self).m0,
            final(self).ef_construct == old(self).ef_construct,
            final(self).entry_points == old(self).entry_points,
            final(self).visited_pool == old(self).visited_pool,
            forall|p: int|
                0 <= p < old(self).point_count() ==> #[trigger] final(self).layers_of(p) == old(
                    self,
                ).layers_of(p),
            final(self).list_at(response.point_id as int, response.level as int)
                == response.links@,
            forall|k: int|
                0 <= k < response.neighbor_ids@.len() ==> final(self).list_at(
                    #[trigger] response.neighbor_ids@[k] as int,
                    response.level as int,
                ) == response.neighbor_links@[k]@,
            forall|p: int, l: int|
                0 <= p < old(self).point_count() && 0 <= l < old(self).layers_of(p) && !(l
                    == response.level as int && (p == response.point_id as int
                    || response.links@.contains(p as u32))) ==> #[trigger] final(self).list_at(p, l)
                    == old(self).list_at(p, l),
    {
        let pid = response.point_id as usize;
        let lvl = response.level;
        let new_links = copy_links(&response.links);
        self.links_layers[pid].set(lvl, new_links);
        proof {
            self.inserted@ = self.inserted@.insert(response.point_id as int);
        }
        let n = response.neighbor_ids.len();
        let mut k: usize = 0;
        while k < n
            invariant
                0 <= k <= n,
                n == response.neighbor_ids@.len(),
                self.m == old(self).m,
                self.m0 == old(self).m0,
                self.ef_construct == old(self).ef_construct,
                self.entry_points == old(self).entry_points,
                self.visited_pool == old(self).visited_pool,
                self.inserted@ == old(self).inserted@.insert(response.point_id as int),
                self.point_count() == old(self).point_count(),
                forall|p: int|
                    0 <= p < old(self).point_count() ==> #[trigger] self.layers_of(p) == old(
                        self,
                    ).layers_of(p),
                self.list_at(response.point_id as int, response.level as int) == response.links@,
                forall|t: int|
                    0 <= t < k ==> self.list_at(
                        #[trigger] response.neighbor_ids@[t] as int,
                        response.level as int,
                    ) == response.neighbor_links@[t]@,
                forall|p: int, l: int|
                    0 <= p < old(self).point_count() && 0 <= l < old(self).layers_of(p) && !(l
                        == response.level as int && (p == response.point_id as int || exists|t: int|
                        0 <= t < k && response.neighbor_ids@[t] as int == p))
                        ==> #[trigger] self.list_at(p, l) == old(self).list_at(p, l),
            decreases n - k,
        {
            let nid = response.neighbor_ids[k] as usize;
            let nl = copy_links(&response.neighbor_links[k]);
            proof {
                assert(response.neighbor_ids@[k as int] == response.links@[k as int]);
                assert(old(self).link_ok(
                    old(self).inserted@,
                    response.point_id as int,
                    response.level as int,
                    response.links@[k as int],
                ));
                assert(self.layers_of(nid as int) == old(self).layers_of(nid as int));
            }
            let ghost prev = *self;
            self.links_layers[nid].set(lvl, nl);
            k = k + 1;
            proof {
                assert forall|p: int|
                    0 <= p < self.point_count() && p != nid as int implies self.links_layers@[p]
                    == prev.links_layers@[p] by {}
                assert forall|p: int|
                    0 <= p < old(self).point_count() implies #[trigger] self.layers_of(p) == prev
                    .layers_of(p) by {
                    if p == nid as int {
                        assert(self.links_layers@[p]@ =~= prev.links_layers@[p]@.update(
                            lvl as int,
                            self.links_layers@[p]@[lvl as int],
                        ));
                    }
                }
                assert forall|t: int| 0 <= t < k implies self.list_at(
                    #[trigger] response.neighbor_ids@[t] as int,
                    response.level as int,
                ) == response.neighbor_links@[t]@ by {
                    if t < k - 1 {
                        assert(response.neighbor_ids@[t] != response.neighbor_ids@[k - 1]);
                        assert(self.list_at(response.neighbor_ids@[t] as int, lvl as int)
                            == prev.list_at(response.neighbor_ids@[t] as int, lvl as int));
                    } else {
                        assert(self.list_at(nid as int, lvl as int) == nl@);
                    }
                }
                assert(self.list_at(response.point_id as int, lvl as int) == prev.list_at(
                    response.point_id as int,
                    lvl as int,
                ));
                assert forall|p: int, l: int|
                    0 <= p < old(self).point_count() && 0 <= l < old(self).layers_of(p) && !(l
                        == response.level as int && (p == response.point_id as int || exists|t: int|
                        0 <= t < k && response.neighbor_ids@[t] as int == p)) implies #[trigger] self
                    .list_at(p, l) == old(self).list_at(p, l) by {
                    if p == nid as int && l != lvl as int {
                        assert(self.list_at(p, l) == prev.list_at(p, l));
                    } else if p != nid as int {
                        assert(self.list_at(p, l) == prev.list_at(p, l));
                    }
                    assert(!(l == response.level as int && (p == response.point_id as int || exists|
                        t: int,
                    |
                        0 <= t < k - 1 && response.neighbor_ids@[t] as int == p)));
                }
            }
        }
        proof {
            let ins2 = old(self).inserted@.insert(response.point_id as int);
            assert forall|p: int, l: int|
                0 <= p < self.point_count() && 0 <= l < self.layers_of(p) implies #[trigger] self
                .list_ok(ins2, p, l) by {
                if l == response.level as int && p == response.point_id as int {
                    assert(self.list_at(p, l) == response.links@);
                } else if l == response.level as int && response.links@.contains(p as u32) {
                    let t = choose|t: int|
                        0 <= t < response.links@.len() && response.links@[t] == p as u32;
                    assert(response.neighbor_ids@[t] as int == p);
                    assert(self.list_at(p, l) == response.neighbor_links@[t]@);
                    assert(old(self).neighbor_list_ok(
                        old(self).inserted@,
                        response.point_id,
                        response.level as int,
                        response.neighbor_ids@[t],
                        response.neighbor_links@[t]@,
                    ));
                } else {
                    assert(self.list_at(p, l) == old(self).list_at(p, l));
                    assert(old(self).list_ok(old(self).inserted@, p, l));
                    assert forall|i: int| 0 <= i < self.list_at(p, l).len() implies self.link_ok(
                        ins2,
                        p,
                        l,
                        #[trigger] self.list_at(p, l)[i],
                    ) by {
                        assert(old(self).link_ok(
                            old(self).inserted@,
                            p,
                            l,
                            old(self).list_at(p, l)[i],
                        ));
                    }
                }
            }
            assert forall|p: int, l: int|
                0 <= p < self.point_count() && 0 <= l < self.layers_of(p) && !ins2.contains(p)
                implies (#[trigger] self.list_at(p, l)).len() == 0 by {
                assert(self.list_at(p, l) == old(self).list_at(p, l));
            }
        }
    }

    /// Insert one point: seed from the registry, greedy descent while the
    /// seed sits above the point's top layer, then link layer by layer from
    /// the common level down to the base layer, installing forward links
    /// and reciprocal maintenance on each. Returns `InvalidPointId` exactly
    /// for an id the builder was not constructed for; otherwise the graph
    /// invariants hold again when the call returns. When the registry held
    /// no admissible seed, the point is registered (capacity permitting)
    /// and no list changes.
    pub fn link_new_point(&mut self, point_id: u32, points_scorer: &FilteredScorer) -> (r: Result<
        (),
        HnswError,
    >)
        requires
            old(self).wf(),
            old(self).scorer_ok(*points_scorer),
            !old(self).inserted@.contains(point_id as int),
            (point_id as int) < old(self).point_count() ==> points_scorer.query@
                == points_scorer.storage.vec_at(point_id as int),
        ensures
            final(self).wf(),
            final(self).point_count() == old(self).point_count(),
            final(self).m == old(self).m,
            final(self).m0 == old(self).m0,
            final(self).ef_construct == old(self).ef_construct,
            final(self).entry_points.num == old(self).entry_points.num,
            forall|p: int|
                0 <= p < old(self).point_count() ==> #[trigger] final(self).layers_of(p) == old(
                    self,
                ).layers_of(p),
            r is Err <==> (point_id as int) >= old(self).point_count(),
            r is Err ==> r == Err::<(), HnswError>(HnswError::InvalidPointId) && *final(self)
                == *old(self),
            r is Ok ==> final(self).inserted@ == old(self).inserted@.insert(point_id as int),
            r is Ok ==> match first_admissible_from(old(self).entry_points@, *points_scorer, 0) {
                Option::Some(j) => final(self).entry_points@ == (if (old(self).layers_of(
                    point_id as int,
                ) - 1) > old(self).entry_points@[j].level {
                    old(self).entry_points@.update(
                        j,
                        EntryPoint {
                            point_id,
                            level: (old(self).layers_of(point_id as int) - 1) as usize,
                        },
                    )
                } else {
                    old(self).entry_points@
                }),
                Option::None => true,
            },
            r is Ok && first_admissible_from(old(self).entry_points@, *points_scorer, 0) is Some
                ==> final(self).list_at(point_id as int, 0).len() >= 1,
            r is Ok ==> match first_admissible_from(old(self).entry_points@, *points_scorer, 0) {
                Option::Some(j) => old(self).entry_points@[j].level == 0 ==> ({
                    let ep = old(self).entry_points@[j];
                    let anchor = ScoredPointOffset {
                        idx: ep.point_id,
                        score: points_scorer.pair_score(point_id as int, ep.point_id as int)
                            as i64,
                    };
                    let beam = beam_spec(
                        old(self).links_layers,
                        *points_scorer,
                        anchor,
                        0,
                        old(self).spec_m(0),
                        old(self).ef_construct as int,
                        old(self).list_at(point_id as int, 0),
                    );
                    let sel = select_spec(*points_scorer.storage, beam, old(self).spec_m(0));
                    &&& final(self).list_at(point_id as int, 0) == sel
                    &&& (forall|kk: int|
                        0 <= kk < sel.len() ==> #[trigger] final(self).list_at(sel[kk] as int, 0)
                            == (if old(self).list_at(sel[kk] as int, 0).len() < old(self).spec_m(
                            0,
                        ) {
                            old(self).list_at(sel[kk] as int, 0).push(point_id)
                        } else {
                            select_spec(
                                *points_scorer.storage,
                                recip_fold(
                                    *points_scorer,
                                    point_id,
                                    sel[kk],
                                    old(self).list_at(sel[kk] as int, 0),
                                    old(self).spec_m(0),
                                ),
                                old(self).spec_m(0),
                            )
                        }))
                    &&& (forall|q: int, l: int|
                        0 <= q < old(self).point_count() && 0 <= l < old(self).layers_of(q) && !(l
                            == 0 && (q == point_id as int || sel.contains(q as u32)))
                            ==> #[trigger] final(self).list_at(q, l) == old(self).list_at(q, l))
                }),
                Option::None => true,
            },
            r is Ok && first_admissible_from(old(self).entry_points@, *points_scorer, 0) is None
                ==> (forall|p: int, l: int|
                0 <= p < old(self).point_count() && 0 <= l < old(self).layers_of(p)
                    ==> #[trigger] final(self).list_at(p, l) == old(self).list_at(p, l)) && (if old(
                self,
            ).entry_points@.len() < old(self).entry_points.num {
                final(self).entry_points@ == old(self).entry_points@.push(
                    EntryPoint {
                        point_id,
                        level: (old(self).layers_of(point_id as int) - 1) as usize,
                    },
                )
            } else {
                final(self).entry_points@ == old(self).entry_points@
            }),
    {
        if point_id as usize >= self.links_layers.len() {
            return Err(HnswError::InvalidPointId);
        }
        let level = self.get_point_level(point_id);
        let ghost ins0 = self.inserted@;
        proof {
            self.inserted@ = self.inserted@.insert(point_id as int);
            lemma_wf_insert_inserted(*old(self), *self, point_id as int);
        }
        let ghost pre_reg = *self;
        let entry_point_opt = self.entry_points.new_point(point_id, level, points_scorer);
        proof {
            lemma_first_admissible_bounds(pre_reg.entry_points@, *points_scorer, 0);
            assert forall|i: int|
                0 <= i < self.entry_points@.len() implies ((
            #[trigger] self.entry_points@[i]).point_id as int) < pre_reg.point_count()
                && self.entry_points@[i].level + 1 == pre_reg.layers_of(
                self.entry_points@[i].point_id as int,
            ) && pre_reg.inserted@.contains(self.entry_points@[i].point_id as int) by {
                let new_ep = EntryPoint { point_id, level };
                match first_admissible_from(pre_reg.entry_points@, *points_scorer, 0) {
                    Option::Some(j) => {
                        if i == j && level > pre_reg.entry_points@[j].level {
                            assert(self.entry_points@[i] == new_ep);
                        } else {
                            assert(self.entry_points@[i] == pre_reg.entry_points@[i]);
                        }
                    },
                    Option::None => {
                        if i < pre_reg.entry_points@.len() {
                            assert(self.entry_points@[i] == pre_reg.entry_points@[i]);
                        } else {
                            assert(self.entry_points@[i] == new_ep);
                        }
                    },
                }
            }
            lemma_wf_entries_change(pre_reg, *self);
        }
        match entry_point_opt {
            None => Ok(()),
            Some(entry_point) => {
                proof {
                    lemma_first_admissible_bounds(pre_reg.entry_points@, *points_scorer, 0);
                    match first_admissible_from(pre_reg.entry_points@, *points_scorer, 0) {
                        Option::Some(j) => {
                            assert(entry_point == old(self).entry_points@[j]);
                        },
                        Option::None => {
                            assert(false);
                        },
                    }
                    assert(ins0.contains(entry_point.point_id as int));
                }
                let mut level_entry: ScoredPointOffset;
                if entry_point.level > level {
                    level_entry = self.search_entry(
                        entry_point.point_id,
                        entry_point.level,
                        level,
                        points_scorer,
                    );
                    proof {
                        if level_entry.idx != entry_point.point_id {
                            let l = choose|l: int|
                                (level as int) < l <= entry_point.level && self.from_level(
                                    l,
                                    level_entry.idx,
                                );
                            let q = choose|q: int|
                                0 <= q < self.point_count() && l < self.layers_of(q) && (
                                #[trigger] self.list_at(q, l)).contains(level_entry.idx);
                            let w = choose|w: int|
                                0 <= w < self.list_at(q, l).len() && self.list_at(q, l)[w]
                                    == level_entry.idx;
                            assert(self.list_ok(self.inserted@, q, l));
                            assert(self.list_at(q, l) == old(self).list_at(q, l));
                            assert(old(self).list_ok(ins0, q, l));
                            assert(old(self).link_ok(ins0, q, l, old(self).list_at(q, l)[w]));
                        }
                    }
                } else {
                    let score = points_scorer.score_internal(point_id, entry_point.point_id);
                    level_entry = ScoredPointOffset { idx: entry_point.point_id, score };
                }
                let linking_level = if level < entry_point.level {
                    level
                } else {
                    entry_point.level
                };
                let ghost reg_state = self.entry_points;
                let ghost anchor0 = level_entry;
                let nlayers = self.links_layers[point_id as usize].len();
                proof {
                    assert(nlayers as int == self.layers_of(point_id as int));
                }
                let mut curr: usize = linking_level + 1;
                while curr > 0
                    invariant
                        curr <= linking_level + 1,
                        self.wf(),
                        self.scorer_ok(*points_scorer),
                        self.inserted@ == ins0.insert(point_id as int),
                        self.point_count() == old(self).point_count(),
                        forall|p: int|
                            0 <= p < old(self).point_count() ==> #[trigger] self.layers_of(p)
                                == old(self).layers_of(p),
                        self.m == old(self).m,
                        self.m0 == old(self).m0,
                        self.ef_construct == old(self).ef_construct,
                        self.entry_points == reg_state,
                        (point_id as int) < old(self).point_count(),
                        (linking_level as int) < self.layers_of(point_id as int),
                        forall|q: int, l: int|
                            0 <= q < old(self).point_count() && 0 <= l < old(self).layers_of(q)
                                && l < curr ==> #[trigger] self.list_at(q, l) == old(self).list_at(
                                q,
                                l,
                            ),
                        (level_entry.idx as int) < old(self).point_count(),
                        level_entry.idx != point_id,
                        ins0.contains(level_entry.idx as int),
                        (curr as int) <= self.layers_of(level_entry.idx as int),
                        level_entry.score == points_scorer.query_score(level_entry.idx as int),
                        -SCORE_LIMIT <= level_entry.score <= SCORE_LIMIT,
                        curr == 0 ==> self.list_at(point_id as int, 0).len() >= 1,
                        forall|q: int, l: int|
                            0 <= q < old(self).point_count() && (linking_level as int) < l < old(
                                self,
                            ).layers_of(q) ==> #[trigger] self.list_at(q, l) == old(self).list_at(
                                q,
                                l,
                            ),
                        curr == linking_level + 1 ==> self.links_layers == old(self).links_layers
                            && level_entry == anchor0,
                        linking_level == 0 && curr == 0 ==> ({
                            let beam = beam_spec(
                                old(self).links_layers,
                                *points_scorer,
                                anchor0,
                                0,
                                self.spec_m(0),
                                old(self).ef_construct as int,
                                old(self).list_at(point_id as int, 0),
                            );
                            let sel = select_spec(*points_scorer.storage, beam, self.spec_m(0));
                            &&& self.list_at(point_id as int, 0) == sel
                            &&& (forall|kk: int|
                                0 <= kk < sel.len() ==> #[trigger] self.list_at(sel[kk] as int, 0)
                                    == (if old(self).list_at(sel[kk] as int, 0).len()
                                    < self.spec_m(0) {
                                    old(self).list_at(sel[kk] as int, 0).push(point_id)
                                } else {
                                    select_spec(
                                        *points_scorer.storage,
                                        recip_fold(
                                            *points_scorer,
                                            point_id,
                                            sel[kk],
                                            old(self).list_at(sel[kk] as int, 0),
                                            self.spec_m(0),
                                        ),
                                        self.spec_m(0),
                                    )
                                }))
                            &&& (forall|q: int, l: int|
                                0 <= q < old(self).point_count() && 0 <= l < old(self).layers_of(q)
                                    && !(l == 0 && (q == point_id as int || sel.contains(
                                    q as u32,
                                ))) ==> #[trigger] self.list_at(q, l) == old(self).list_at(q, l))
                        }),
                    decreases curr,
                {
                    let ghost iter_start = *self;
                    let curr_level = curr - 1;
                    proof {
                        assert(!self.from_level(curr_level as int, point_id)) by {
                            if self.from_level(curr_level as int, point_id) {
                                let q = choose|q: int|
                                    0 <= q < self.point_count() && (curr_level as int)
                                        < self.layers_of(q) && (#[trigger] self.list_at(
                                        q,
                                        curr_level as int,
                                    )).contains(point_id);
                                let w = choose|w: int|
                                    0 <= w < self.list_at(q, curr_level as int).len()
                                        && self.list_at(q, curr_level as int)[w] == point_id;
                                assert(self.list_at(q, curr_level as int) == old(self).list_at(
                                    q,
                                    curr_level as int,
                                ));
                                assert(old(self).list_ok(ins0, q, curr_level as int));
                                assert(old(self).link_ok(
                                    ins0,
                                    q,
                                    curr_level as int,
                                    old(self).list_at(q, curr_level as int)[w],
                                ));
                            }
                        }
                    }
                    let link_response = self.link_on_level(
                        point_id,
                        points_scorer,
                        curr_level,
                        level_entry,
                    );
                    if let Some(the_nearest) = link_response.entry {
                        level_entry = the_nearest;
                        proof {
                            assert(ins0.contains(level_entry.idx as int));
                        }
                    }
                    let ghost pre_apply = *self;
                    self.apply_link_response(&link_response);
                    proof {
                        assert(self.inserted@ =~= ins0.insert(point_id as int));
                        assert(pre_apply.links_layers == iter_start.links_layers);
                        assert forall|p: int|
                            0 <= p < old(self).point_count() implies #[trigger] self.layers_of(p)
                            == old(self).layers_of(p) by {
                            assert(iter_start.layers_of(p) == old(self).layers_of(p));
                            assert(pre_apply.layers_of(p) == iter_start.layers_of(p));
                            assert(self.layers_of(p) == pre_apply.layers_of(p));
                        }
                        assert forall|q: int, l: int|
                            0 <= q < old(self).point_count() && 0 <= l < old(self).layers_of(q)
                                && l < curr - 1 implies #[trigger] self.list_at(q, l) == old(
                            self,
                        ).list_at(q, l) by {
                            assert(iter_start.layers_of(q) == old(self).layers_of(q));
                            assert(pre_apply.layers_of(q) == iter_start.layers_of(q));
                            assert(0 <= l < pre_apply.layers_of(q));
                            assert(l != link_response.level as int);
                            assert(self.list_at(q, l) == pre_apply.list_at(q, l));
                            assert(pre_apply.list_at(q, l) == iter_start.list_at(q, l));
                            assert(iter_start.list_at(q, l) == old(self).list_at(q, l));
                        }
                        assert forall|q: int, l: int|
                            0 <= q < old(self).point_count() && (linking_level as int) < l < old(
                            self,
                        ).layers_of(q) implies #[trigger] self.list_at(q, l) == old(self).list_at(
                            q,
                            l,
                        ) by {
                            assert(iter_start.layers_of(q) == old(self).layers_of(q));
                            assert(pre_apply.layers_of(q) == iter_start.layers_of(q));
                            assert(0 <= l < pre_apply.layers_of(q));
                            assert(l != link_response.level as int);
                            assert(self.list_at(q, l) == pre_apply.list_at(q, l));
                            assert(pre_apply.list_at(q, l) == iter_start.list_at(q, l));
                            assert(iter_start.list_at(q, l) == old(self).list_at(q, l));
                        }
                        if linking_level == 0 {
                            assert(curr == 1);
                            let st = *points_scorer.storage;
                            let beam = beam_spec(
                                old(self).links_layers,
                                *points_scorer,
                                anchor0,
                                0,
                                self.spec_m(0),
                                old(self).ef_construct as int,
                                old(self).list_at(point_id as int, 0),
                            );
                            let sel = select_spec(st, beam, self.spec_m(0));
                            assert(iter_start.links_layers == old(self).links_layers);
                            assert(iter_start.spec_m(0) == self.spec_m(0));
                            assert(iter_start.list_at(point_id as int, 0) == old(self).list_at(
                                point_id as int,
                                0,
                            ));
                            assert(link_response.links@ == sel);
                            assert(self.list_at(point_id as int, 0) == sel);
                            assert forall|kk: int| 0 <= kk < sel.len() implies #[trigger] self
                                .list_at(sel[kk] as int, 0) == (if old(self).list_at(
                                sel[kk] as int,
                                0,
                            ).len() < self.spec_m(0) {
                                old(self).list_at(sel[kk] as int, 0).push(point_id)
                            } else {
                                select_spec(
                                    st,
                                    recip_fold(
                                        *points_scorer,
                                        point_id,
                                        sel[kk],
                                        old(self).list_at(sel[kk] as int, 0),
                                        self.spec_m(0),
                                    ),
                                    self.spec_m(0),
                                )
                            }) by {
                                assert(link_response.neighbor_ids@[kk] == sel[kk]);
                                assert(self.list_at(sel[kk] as int, 0)
                                    == link_response.neighbor_links@[kk]@);
                                assert(iter_start.list_at(sel[kk] as int, 0) == old(self).list_at(
                                    sel[kk] as int,
                                    0,
                                ));
                            }
                            assert forall|q: int, l: int|
                                0 <= q < old(self).point_count() && 0 <= l < old(self).layers_of(q)
                                    && !(l == 0 && (q == point_id as int || sel.contains(
                                    q as u32,
                                ))) implies #[trigger] self.list_at(q, l) == old(self).list_at(
                                q,
                                l,
                            ) by {
                                assert(iter_start.layers_of(q) == old(self).layers_of(q));
                                assert(pre_apply.layers_of(q) == iter_start.layers_of(q));
                                assert(0 <= l < pre_apply.layers_of(q));
                                if l != 0 {
                                    assert(self.list_at(q, l) == pre_apply.list_at(q, l));
                                    assert(pre_apply.list_at(q, l) == iter_start.list_at(q, l));
                                    assert(iter_start.list_at(q, l) == old(self).list_at(q, l));
                                } else {
                                    assert(!link_response.links@.contains(q as u32));
                                    assert(self.list_at(q, l) == pre_apply.list_at(q, l));
                                    assert(pre_apply.list_at(q, l) == iter_start.list_at(q, l));
                                    assert(iter_start.list_at(q, l) == old(self).list_at(q, l));
                                }
                            }
                        }
                    }
                    curr = curr - 1;
                }
                Ok(())
            },
        }
    }

    /// Number of layers the point occupies (its top layer plus one).
    pub fn levels(&self, point_id: u32) -> (r: usize)
        requires
            self.wf(),
            (point_id as int) < self.point_count(),
        ensures
            r == self.layers_of(point_id as int),
    {
        self.links_layers[point_id as usize].len()
    }

    /// The neighbor list of `point_id` on `level`, as a copy.
    pub fn neighbors(&self, point_id: u32, level: usize) -> (r: Vec<u32>)
        requires
            self.wf(),
            (point_id as int) < self.point_count(),
            (level as int) < self.layers_of(point_id as int),
        ensures
            r@ == self.list_at(point_id as int, level as int),
    {
        copy_links(&self.links_layers[point_id as usize][level])
    }

    /// The registered seed descriptors.
    pub fn entry_points(&self) -> (r: Vec<EntryPoint>)
        ensures
            r@ == self.entry_points@,
    {
        let mut r: Vec<EntryPoint> = Vec::new();
        let mut i: usize = 0;
        while i < self.entry_points.entry_points.len()
            invariant
                0 <= i <= self.entry_points@.len(),
                r@ == self.entry_points@.take(i as int),
            decreases self.entry_points@.len() - i,
        {
            r.push(self.entry_points.entry_points[i]);
            proof {
                assert(r@ =~= self.entry_points@.take(i as int + 1));
            }
            i = i + 1;
        }
        proof {
            assert(self.entry_points@.take(self.entry_points@.len() as int)
                =~= self.entry_points@);
        }
        r
    }

    /// The construction parameters `(m, m0, ef_construct)`.
    pub fn params(&self) -> (r: (usize, usize, usize))
        ensures
            r.0 == self.m,
            r.1 == self.m0,
            r.2 == self.ef_construct,
    {
        (self.m, self.m0, self.ef_construct)
    }

    /// Where a beam-search element can come from: the anchor itself, some
    /// neighbor list on the searched layer, or the new point's own existing
    /// links.
    pub open spec fn search_mem_ok(
        self,
        entry_idx: u32,
        level: int,
        existing: Seq<u32>,
        s: Seq<ScoredPointOffset>,
    ) -> bool {
        forall|i: int|
            0 <= i < s.len() ==> {
                let x = (#[trigger] s[i]).idx;
                &&& (x as int) < self.point_count()
                &&& level < self.layers_of(x as int)
                &&& (x == entry_idx || self.from_level(level, x) || existing.contains(x))
            }
    }

    /// Bounded beam search on one layer: best-first expansion from the
    /// anchor, collecting up to `ef` nearest admissible points, then feeding
    /// the point's own existing links through the same admission. The result
    /// is exactly [`beam_spec`] of the link store, the scorer and the anchor:
    /// sorted by descending rank, duplicate-free, true query scores, only
    /// points that occupy the layer, and nothing inadmissible beyond the
    /// anchor and the existing links.
    pub fn search_on_level(
        &mut self,
        level_entry: ScoredPointOffset,
        level: usize,
        ef: usize,
        points_scorer: &FilteredScorer,
        existing_links: &Vec<u32>,
    ) -> (nearest: FixedLengthPriorityQueue)
        requires
            old(self).wf(),
            old(self).scorer_ok(*points_scorer),
            ef >= 1,
            (level_entry.idx as int) < old(self).point_count(),
            (level as int) < old(self).layers_of(level_entry.idx as int),
            level_entry.score == points_scorer.query_score(level_entry.idx as int),
            -SCORE_LIMIT <= level_entry.score <= SCORE_LIMIT,
            distinct_u32(existing_links@),
            forall|i: int|
                0 <= i < existing_links@.len() ==> ((#[trigger] existing_links@[i]) as int) < old(
                    self,
                ).point_count() && (level as int) < old(self).layers_of(
                    existing_links@[i] as int,
                ),
        ensures
            final(self).links_layers == old(self).links_layers,
            final(self).entry_points == old(self).entry_points,
            final(self).inserted == old(self).inserted,
            final(self).m == old(self).m,
            final(self).m0 == old(self).m0,
            final(self).ef_construct == old(self).ef_construct,
            final(self).wf(),
            nearest.wf(),
            nearest.capacity == ef,
            1 <= nearest@.len() <= ef,
            distinct_ids(nearest@),
            sorted_desc(nearest@),
            true_scores(*points_scorer, nearest@),
            final(self).search_mem_ok(level_entry.idx, level as int, existing_links@, nearest@),
            known_or_admitted(*points_scorer, level_entry.idx, existing_links@, nearest@),
            nearest@ == beam_spec(
                old(self).links_layers,
                *points_scorer,
                level_entry,
                level as int,
                old(self).spec_m(level as int),
                ef as int,
                existing_links@,
            ),
            old(self).visited_pool.lists@.len() == 0 ==> final(self).visited_pool.lists@.len()
                == 1,
            old(self).visited_pool.lists@.len() > 0 ==> final(self).visited_pool.lists@.len()
                == old(self).visited_pool.lists@.len(),
    {
        let n = self.links_layers.len();
        let ghost links = self.links_layers;
        let mut visited_list = match self.visited_pool.get(n) {
            Ok(v) => v,
            Err(_) => vstd::pervasive::unreached(),
        };
        proof {
            lemma_wf_pool_change(*old(self), *self);
        }
        visited_list.check_and_update_visited(level_entry.idx);
        let mut nearest = FixedLengthPriorityQueue::new(ef);
        nearest.push(level_entry);
        let mut candidates = CandidateFrontier::new();
        candidates.push(level_entry);
        proof {
            Seq::<ScoredPointOffset>::empty().insert_ensures(0, level_entry);
            assert(nearest@ =~= seq![level_entry]);
            assert(candidates@ =~= seq![level_entry]);
            lemma_card_bounded(visited_list.visited(), n as int);
        }
        let limit = self.get_m(level);
        let ghost init_q = insert_desc(Seq::<ScoredPointOffset>::empty(), level_entry);
        let ghost target = beam_rec(
            links,
            *points_scorer,
            level as int,
            limit as int,
            init_q,
            init_q,
            Set::<int>::empty().insert(level_entry.idx as int),
            ef as int,
            (n + 1) as nat,
        );
        let ghost mut fuel: int = n as int + 1;
        let mut points_ids: Vec<u32> = Vec::new();
        #[verifier::loop_isolation(true)]
        loop
            invariant_except_break
                beam_rec(
                    links,
                    *points_scorer,
                    level as int,
                    limit as int,
                    nearest@,
                    candidates@,
                    visited_list.visited(),
                    ef as int,
                    fuel as nat,
                ) == target,
            invariant
                self.wf(),
                self.scorer_ok(*points_scorer),
                n == self.point_count(),
                links == self.links_layers,
                ef >= 1,
                limit == self.spec_m(level as int),
                (level_entry.idx as int) < n,
                nearest.wf(),
                nearest.capacity == ef,
                1 <= nearest@.len(),
                candidates.wf(),
                distinct_ids(nearest@),
                true_scores(*points_scorer, nearest@),
                true_scores(*points_scorer, candidates@),
                self.search_mem_ok(level_entry.idx, level as int, existing_links@, nearest@),
                self.search_mem_ok(level_entry.idx, level as int, existing_links@, candidates@),
                known_or_admitted(*points_scorer, level_entry.idx, existing_links@, nearest@),
                known_or_admitted(*points_scorer, level_entry.idx, existing_links@, candidates@),
                visited_list.wf(),
                visited_list.capacity() >= n,
                visited_list.visited().finite(),
                forall|x: int| visited_list.visited().contains(x) ==> 0 <= x < n,
                visited_list.visited().len() <= n,
                forall|i: int|
                    0 <= i < nearest@.len() ==> visited_list.visited().contains(
                        (#[trigger] nearest@[i]).idx as int,
                    ),
                forall|i: int|
                    0 <= i < candidates@.len() ==> visited_list.visited().contains(
                        (#[trigger] candidates@[i]).idx as int,
                    ),
                fuel >= (n as int - visited_list.visited().len()) + candidates@.len() + 1,
            ensures
                nearest.wf(),
                nearest.capacity == ef,
                1 <= nearest@.len(),
                candidates.wf(),
                distinct_ids(nearest@),
                true_scores(*points_scorer, nearest@),
                self.search_mem_ok(level_entry.idx, level as int, existing_links@, nearest@),
                known_or_admitted(*points_scorer, level_entry.idx, existing_links@, nearest@),
                visited_list.wf(),
                visited_list.capacity() >= n,
                forall|x: int| visited_list.visited().contains(x) ==> 0 <= x < n,
                forall|i: int|
                    0 <= i < nearest@.len() ==> visited_list.visited().contains(
                        (#[trigger] nearest@[i]).idx as int,
                    ),
                target == (nearest@, visited_list.visited()),
            decreases fuel,
        {
            let ghost pre_frontier = candidates@;
            let ghost pre_visited = visited_list.visited();
            let candidate = match candidates.pop() {
                Some(c) => c,
                None => {
                    proof {
                        assert(beam_rec(
                            links,
                            *points_scorer,
                            level as int,
                            limit as int,
                            nearest@,
                            candidates@,
                            visited_list.visited(),
                            ef as int,
                            fuel as nat,
                        ) == (nearest@, visited_list.visited()));
                    }
                    break
                },
            };
            let lower_bound = match nearest.top() {
                None => i64::MIN,
                Some(worst_of_the_best) => worst_of_the_best.score,
            };
            proof {
                lemma_card_bounded(visited_list.visited(), n as int);
                assert(fuel >= 1);
            }
            if candidate.score < lower_bound {
                proof {
                    assert(beam_rec(
                        links,
                        *points_scorer,
                        level as int,
                        limit as int,
                        nearest@,
                        pre_frontier,
                        pre_visited,
                        ef as int,
                        fuel as nat,
                    ) == (nearest@, pre_visited));
                }
                break;
            }
            points_ids.clear();
            let ghost cand_base = candidates@.len();
            proof {
                assert(self.list_ok(self.inserted@, candidate.idx as int, level as int));
            }
            let row = &self.links_layers[candidate.idx as usize][level];
            let ghost gtarget = gather_rec(pre_visited, row@, 0);
            let mut t: usize = 0;
            while t < row.len()
                invariant
                    0 <= t <= row@.len(),
                    row@ == self.list_at(candidate.idx as int, level as int),
                    visited_list.wf(),
                    visited_list.capacity() >= n,
                    visited_list.visited().finite(),
                    forall|x: int| visited_list.visited().contains(x) ==> 0 <= x < n,
                    visited_list.visited().len() == pre_visited.len() + points_ids@.len(),
                    forall|x: int|
                        pre_visited.contains(x) ==> visited_list.visited().contains(x),
                    distinct_u32(points_ids@),
                    forall|i: int|
                        0 <= i < points_ids@.len() ==> !pre_visited.contains(
                            (#[trigger] points_ids@[i]) as int,
                        ) && visited_list.visited().contains(points_ids@[i] as int) && (
                        points_ids@[i] as int) < n && (level as int) < self.layers_of(
                            points_ids@[i] as int,
                        ) && self.from_level(level as int, points_ids@[i]),
                    points_ids@ + gather_rec(visited_list.visited(), row@, t as int).0
                        == gtarget.0,
                    gather_rec(visited_list.visited(), row@, t as int).1 == gtarget.1,
                decreases row@.len() - t,
            {
                let link = row[t];
                let ghost vis_before = visited_list.visited();
                let ghost pids_before = points_ids@;
                proof {
                    assert(self.link_ok(
                        self.inserted@,
                        candidate.idx as int,
                        level as int,
                        row@[t as int],
                    ));
                    vstd::set::axiom_set_insert_len(visited_list.visited(), link as int);
                }
                if !visited_list.check_and_update_visited(link) {
                    points_ids.push(link);
                    proof {
                        assert(self.list_at(candidate.idx as int, level as int).contains(link));
                        assert(self.from_level(level as int, link));
                        let rest = gather_rec(visited_list.visited(), row@, t as int + 1);
                        assert(gather_rec(vis_before, row@, t as int) == (
                            seq![link] + rest.0,
                            rest.1,
                        ));
                        assert(pids_before.push(link) + rest.0 =~= pids_before + (seq![link]
                            + rest.0));
                    }
                } else {
                    proof {
                        assert(visited_list.visited() =~= vis_before);
                        assert(gather_rec(vis_before, row@, t as int) == gather_rec(
                            vis_before,
                            row@,
                            t as int + 1,
                        ));
                    }
                }
                t = t + 1;
            }
            proof {
                assert(gather_rec(visited_list.visited(), row@, row@.len() as int) == (
                    Seq::<u32>::empty(),
                    visited_list.visited(),
                ));
                assert(points_ids@ + Seq::<u32>::empty() =~= points_ids@);
                assert(points_ids@ == gtarget.0);
                assert(visited_list.visited() == gtarget.1);
            }
            let ghost pre_ids = points_ids@;
            let scores = points_scorer.score_points(&mut points_ids, limit);
            let ghost kept = points_ids@;
            proof {
                points_scorer.lemma_admitted_prefix_props(pre_ids, limit as int);
                assert forall|i: int| 0 <= i < kept.len() implies !pre_visited.contains(
                    (#[trigger] kept[i]) as int,
                ) && visited_list.visited().contains(kept[i] as int) && (kept[i] as int) < n && (
                level as int) < self.layers_of(kept[i] as int) && self.from_level(
                    level as int,
                    kept[i],
                ) && points_scorer.admits(kept[i] as int) by {
                    assert(pre_ids.contains(kept[i]));
                    let w = choose|w: int| 0 <= w < pre_ids.len() && pre_ids[w] == kept[i];
                }
                assert(scores@ =~= scored_seq(*points_scorer, kept)) by {
                    assert forall|i: int| 0 <= i < scores@.len() implies scores@[i] == scored_seq(
                        *points_scorer,
                        kept,
                    )[i] by {
                        assert(scores@[i].idx == kept[i]);
                        assert((scores@[i].score as int) as i64 == scores@[i].score);
                    }
                }
            }
            let ghost nearest_b0 = nearest@;
            let ghost cand_b0 = candidates@;
            let ghost ftarget = feed_rec(nearest_b0, cand_b0, ef as int, scores@, 0);
            let mut u: usize = 0;
            while u < scores.len()
                invariant
                    0 <= u <= scores@.len(),
                    scores@.len() == kept.len(),
                    nearest.wf(),
                    nearest.capacity == ef,
                    1 <= nearest@.len(),
                    candidates.wf(),
                    distinct_ids(nearest@),
                    true_scores(*points_scorer, nearest@),
                    true_scores(*points_scorer, candidates@),
                    self.search_mem_ok(level_entry.idx, level as int, existing_links@, nearest@),
                    self.search_mem_ok(
                        level_entry.idx,
                        level as int,
                        existing_links@,
                        candidates@,
                    ),
                    known_or_admitted(*points_scorer, level_entry.idx, existing_links@, nearest@),
                    known_or_admitted(
                        *points_scorer,
                        level_entry.idx,
                        existing_links@,
                        candidates@,
                    ),
                    forall|i: int|
                        0 <= i < nearest@.len() ==> pre_visited.contains(
                            (#[trigger] nearest@[i]).idx as int,
                        ) || exists|v: int| 0 <= v < u && kept[v] == nearest@[i].idx,
                    forall|i: int|
                        0 <= i < nearest@.len() ==> visited_list.visited().contains(
                            (#[trigger] nearest@[i]).idx as int,
                        ),
                    forall|i: int|
                        0 <= i < candidates@.len() ==> visited_list.visited().contains(
                            (#[trigger] candidates@[i]).idx as int,
                        ),
                    candidates@.len() <= cand_base + u,
                    feed_rec(nearest@, candidates@, ef as int, scores@, u as int) == ftarget,
                decreases scores@.len() - u,
            {
                let sp = scores[u];
                let ghost pre_nearest = nearest@;
                let ghost pre_cands = candidates@;
                proof {
                    assert(sp.idx == kept[u as int]);
                    assert forall|i: int| 0 <= i < nearest@.len() implies (
                    #[trigger] nearest@[i]).idx != sp.idx by {
                        if !pre_visited.contains(nearest@[i].idx as int) {
                            let v = choose|v: int| 0 <= v < u && kept[v] == nearest@[i].idx;
                            assert(kept[v] != kept[u as int]);
                        }
                    }
                }
                Self::process_candidate(&mut nearest, &mut candidates, sp);
                proof {
                    assert(feed_rec(pre_nearest, pre_cands, ef as int, scores@, u as int)
                        == feed_rec(nearest@, candidates@, ef as int, scores@, u as int + 1));
                    assert forall|i: int| 0 <= i < nearest@.len() implies {
                        let x = (#[trigger] nearest@[i]).idx;
                        &&& (x as int) < self.point_count()
                        &&& (level as int) < self.layers_of(x as int)
                        &&& (x == level_entry.idx || self.from_level(level as int, x)
                            || existing_links@.contains(x))
                        &&& (x == level_entry.idx || existing_links@.contains(x)
                            || points_scorer.admits(x as int))
                        &&& (pre_visited.contains(x as int) || exists|v: int|
                            0 <= v < u + 1 && kept[v] == x)
                        &&& visited_list.visited().contains(x as int)
                        &&& nearest@[i].score == points_scorer.query_score(x as int)
                        &&& -SCORE_LIMIT <= nearest@[i].score <= SCORE_LIMIT
                    } by {
                        if nearest@[i] == sp {
                            assert(kept[u as int] == sp.idx);
                        } else {
                            assert(pre_nearest.contains(nearest@[i]));
                            let w = choose|w: int|
                                0 <= w < pre_nearest.len() && pre_nearest[w] == nearest@[i];
                        }
                    }
                    assert forall|i: int| 0 <= i < candidates@.len() implies {
                        let x = (#[trigger] candidates@[i]).idx;
                        &&& (x as int) < self.point_count()
                        &&& (level as int) < self.layers_of(x as int)
                        &&& (x == level_entry.idx || self.from_level(level as int, x)
                            || existing_links@.contains(x))
                        &&& (x == level_entry.idx || existing_links@.contains(x)
                            || points_scorer.admits(x as int))
                        &&& visited_list.visited().contains(x as int)
                        &&& candidates@[i].score == points_scorer.query_score(x as int)
                        &&& -SCORE_LIMIT <= candidates@[i].score <= SCORE_LIMIT
                    } by {
                        if candidates@[i] == sp {
                            assert(kept[u as int] == sp.idx);
                        } else {
                            assert(pre_cands.contains(candidates@[i]));
                            let w = choose|w: int|
                                0 <= w < pre_cands.len() && pre_cands[w] == candidates@[i];
                        }
                    }
                }
                u = u + 1;
            }
            proof {
                assert(feed_rec(nearest@, candidates@, ef as int, scores@, scores@.len() as int)
                    == (nearest@, candidates@));
                assert((nearest@, candidates@) == ftarget);
                assert(links_list_at(links, candidate.idx as int, level as int) == row@);
                assert(points_scorer.admitted_prefix(gtarget.0, limit as int) == kept);
                assert(beam_rec(
                    links,
                    *points_scorer,
                    level as int,
                    limit as int,
                    nearest_b0,
                    pre_frontier,
                    pre_visited,
                    ef as int,
                    fuel as nat,
                ) == beam_rec(
                    links,
                    *points_scorer,
                    level as int,
                    limit as int,
                    nearest@,
                    candidates@,
                    visited_list.visited(),
                    ef as int,
                    (fuel - 1) as nat,
                ));
                lemma_card_bounded(visited_list.visited(), n as int);
                assert(kept.len() <= pre_ids.len());
                fuel = fuel - 1;
            }
        }
        let ghost post_visited = visited_list.visited();
        let ghost etarget = exist_rec(
            *points_scorer,
            nearest@,
            post_visited,
            existing_links@,
            ef as int,
            0,
        );
        let mut t: usize = 0;
        while t < existing_links.len()
            invariant
                0 <= t <= existing_links@.len(),
                nearest.wf(),
                nearest.capacity == ef,
                1 <= nearest@.len(),
                candidates.wf(),
                distinct_ids(nearest@),
                true_scores(*points_scorer, nearest@),
                self.search_mem_ok(level_entry.idx, level as int, existing_links@, nearest@),
                known_or_admitted(*points_scorer, level_entry.idx, existing_links@, nearest@),
                visited_list.wf(),
                visited_list.capacity() >= n,
                visited_list.visited() == post_visited,
                forall|i: int|
                    0 <= i < nearest@.len() ==> post_visited.contains(
                        (#[trigger] nearest@[i]).idx as int,
                    ) || exists|v: int| 0 <= v < t && existing_links@[v] == nearest@[i].idx,
                exist_rec(*points_scorer, nearest@, post_visited, existing_links@, ef as int,
                    t as int) == etarget,
            decreases existing_links@.len() - t,
        {
            let existing_link = existing_links[t];
            if !visited_list.check(existing_link) {
                let score = points_scorer.score_point(existing_link);
                let ghost pre_nearest = nearest@;
                proof {
                    assert forall|i: int| 0 <= i < nearest@.len() implies (
                    #[trigger] nearest@[i]).idx != existing_link by {
                        if !post_visited.contains(nearest@[i].idx as int) {
                            let v = choose|v: int|
                                0 <= v < t && existing_links@[v] == nearest@[i].idx;
                            assert(existing_links@[v] != existing_links@[t as int]);
                        }
                    }
                    assert((score as int) as i64 == score);
                }
                Self::process_candidate(
                    &mut nearest,
                    &mut candidates,
                    ScoredPointOffset { idx: existing_link, score },
                );
                proof {
                    assert(ScoredPointOffset { idx: existing_link, score }
                        == (ScoredPointOffset {
                        idx: existing_link,
                        score: points_scorer.query_score(existing_link as int) as i64,
                    }));
                    assert(exist_rec(*points_scorer, pre_nearest, post_visited, existing_links@,
                        ef as int, t as int) == exist_rec(*points_scorer, nearest@, post_visited,
                        existing_links@, ef as int, t as int + 1));
                    assert(existing_links@.contains(existing_links@[t as int]));
                    assert forall|i: int| 0 <= i < nearest@.len() implies {
                        let x = (#[trigger] nearest@[i]).idx;
                        &&& (x as int) < self.point_count()
                        &&& (level as int) < self.layers_of(x as int)
                        &&& (x == level_entry.idx || self.from_level(level as int, x)
                            || existing_links@.contains(x))
                        &&& (x == level_entry.idx || existing_links@.contains(x)
                            || points_scorer.admits(x as int))
                        &&& (post_visited.contains(x as int) || exists|v: int|
                            0 <= v < t + 1 && existing_links@[v] == x)
                        &&& nearest@[i].score == points_scorer.query_score(x as int)
                        &&& -SCORE_LIMIT <= nearest@[i].score <= SCORE_LIMIT
                    } by {
                        if nearest@[i].idx == existing_link {
                            assert(existing_links@[t as int] == nearest@[i].idx);
                        } else {
                            assert(pre_nearest.contains(nearest@[i]));
                            let w = choose|w: int|
                                0 <= w < pre_nearest.len() && pre_nearest[w] == nearest@[i];
                        }
                    }
                }
            } else {
                proof {
                    assert(exist_rec(*points_scorer, nearest@, post_visited, existing_links@,
                        ef as int, t as int) == exist_rec(*points_scorer, nearest@, post_visited,
                        existing_links@, ef as int, t as int + 1));
                }
            }
            t = t + 1;
        }
        proof {
            assert(exist_rec(*points_scorer, nearest@, post_visited, existing_links@, ef as int,
                existing_links@.len() as int) == nearest@);
            assert(nearest@ == etarget);
            assert(nearest@ == beam_spec(
                links,
                *points_scorer,
                level_entry,
                level as int,
                limit as int,
                ef as int,
                existing_links@,
            ));
        }
        let ghost before_return = *self;
        self.visited_pool.return_back(visited_list);
        proof {
            lemma_wf_pool_change(before_return, *self);
            assert forall|i: int| 0 <= i < nearest@.len() implies {
                let x = (#[trigger] nearest@[i]).idx;
                &&& (x as int) < self.point_count()
                &&& (level as int) < self.layers_of(x as int)
                &&& (x == level_entry.idx || self.from_level(level as int, x)
                    || existing_links@.contains(x))
            } by {
                let x = nearest@[i].idx;
                if before_return.from_level(level as int, x) {
                    let q = choose|q: int|
                        0 <= q < before_return.point_count() && (level as int)
                            < before_return.layers_of(q) && (#[trigger] before_return.list_at(
                            q,
                            level as int,
                        )).contains(x);
                    assert(self.list_at(q, level as int) == before_return.list_at(
                        q,
                        level as int,
                    ));
                    assert(self.from_level(level as int, x));
                }
            }
        }
        nearest
    }

    /// Link one point on one layer: beam-search the layer from the anchor,
    /// prune the beam result to at most `M_level` forward links with the
    /// heuristic, and re-prune each chosen neighbor's list to keep its own
    /// budget — appending when the neighbor is below budget, otherwise
    /// re-selecting over the neighbor's links plus the new point, scored
    /// against that neighbor. Returns the outcome without touching the link
    /// store; the caller applies it. The response's anchor is the best
    /// element of the beam result.
    pub fn link_on_level(
        &mut self,
        point_id: u32,
        points_scorer: &FilteredScorer,
        level: usize,
        entry: ScoredPointOffset,
    ) -> (response: GraphLinkResponse)
        requires
            old(self).wf(),
            old(self).scorer_ok(*points_scorer),
            (point_id as int) < old(self).point_count(),
            (level as int) < old(self).layers_of(point_id as int),
            old(self).inserted@.contains(point_id as int),
            (entry.idx as int) < old(self).point_count(),
            entry.idx != point_id,
            (level as int) < old(self).layers_of(entry.idx as int),
            old(self).inserted@.contains(entry.idx as int),
            entry.score == points_scorer.query_score(entry.idx as int),
            -SCORE_LIMIT <= entry.score <= SCORE_LIMIT,
            !old(self).from_level(level as int, point_id),
        ensures
            final(self).links_layers == old(self).links_layers,
            final(self).entry_points == old(self).entry_points,
            final(self).inserted == old(self).inserted,
            final(self).m == old(self).m,
            final(self).m0 == old(self).m0,
            final(self).ef_construct == old(self).ef_construct,
            final(self).wf(),
            final(self).response_ok(final(self).inserted@, response),
            response.point_id == point_id,
            response.level == level,
            ({
                let beam = beam_spec(
                    old(self).links_layers,
                    *points_scorer,
                    entry,
                    level as int,
                    old(self).spec_m(level as int),
                    old(self).ef_construct as int,
                    old(self).list_at(point_id as int, level as int),
                );
                &&& response.links@ == select_spec(
                    *points_scorer.storage,
                    beam,
                    old(self).spec_m(level as int),
                )
                &&& response.entry == Some(beam[0])
            }),
            forall|k: int|
                0 <= k < response.links@.len() ==> {
                    let nb = #[trigger] response.links@[k];
                    if old(self).list_at(nb as int, level as int).len() < old(self).spec_m(
                        level as int,
                    ) {
                        response.neighbor_links@[k]@ == old(self).list_at(
                            nb as int,
                            level as int,
                        ).push(point_id)
                    } else {
                        response.neighbor_links@[k]@ == select_spec(
                            *points_scorer.storage,
                            recip_fold(
                                *points_scorer,
                                point_id,
                                nb,
                                old(self).list_at(nb as int, level as int),
                                old(self).spec_m(level as int),
                            ),
                            old(self).spec_m(level as int),
                        )
                    }
                },
            response.entry is Some,
            ({
                let e = response.entry->0;
                &&& (e.idx as int) < old(self).point_count()
                &&& e.idx != point_id
                &&& old(self).inserted@.contains(e.idx as int)
                &&& (level as int) < old(self).layers_of(e.idx as int)
                &&& e.score == points_scorer.query_score(e.idx as int)
                &&& -SCORE_LIMIT <= e.score <= SCORE_LIMIT
            }),
            response.links@.len() >= 1,
            response.links@.len() <= old(self).ef_construct,
    {
        proof {
            assert(self.list_ok(self.inserted@, point_id as int, level as int));
        }
        let existing_links = copy_links(&self.links_layers[point_id as usize][level]);
        let ef = self.ef_construct;
        let nearest_points = self.search_on_level(entry, level, ef, points_scorer, &existing_links);
        let ghost nearq = nearest_points@;
        proof {
            assert(self.list_at(point_id as int, level as int) == existing_links@);
            assert(!self.from_level(level as int, point_id)) by {
                if self.from_level(level as int, point_id) {
                    let q = choose|q: int|
                        0 <= q < self.point_count() && (level as int) < self.layers_of(q) && (
                        #[trigger] self.list_at(q, level as int)).contains(point_id);
                    assert(old(self).list_at(q, level as int) == self.list_at(q, level as int));
                    assert(old(self).from_level(level as int, point_id));
                }
            }
            assert(self.list_ok(self.inserted@, point_id as int, level as int));
            assert forall|i: int| 0 <= i < nearq.len() implies {
                let x = (#[trigger] nearq[i]).idx;
                &&& x != point_id
                &&& self.inserted@.contains(x as int)
                &&& (x as int) < self.point_count()
                &&& (level as int) < self.layers_of(x as int)
            } by {
                let x = nearq[i].idx;
                if x == entry.idx {
                } else if self.from_level(level as int, x) {
                    let q = choose|q: int|
                        0 <= q < self.point_count() && (level as int) < self.layers_of(q) && (
                        #[trigger] self.list_at(q, level as int)).contains(x);
                    assert(self.list_ok(self.inserted@, q, level as int));
                    let w = choose|w: int|
                        0 <= w < self.list_at(q, level as int).len() && self.list_at(
                            q,
                            level as int,
                        )[w] == x;
                    assert(self.link_ok(self.inserted@, q, level as int, x));
                } else {
                    assert(existing_links@.contains(x));
                    let w = choose|w: int|
                        0 <= w < existing_links@.len() && existing_links@[w] == x;
                    assert(self.list_at(point_id as int, level as int)[w] == x);
                    assert(self.link_ok(self.inserted@, point_id as int, level as int, x));
                }
            }
        }
        let response_entry = nearest_points.best();
        let level_m = self.get_m(level);
        let links = Self::select_candidates_with_heuristic(nearest_points, level_m, points_scorer);
        proof {
            lemma_select_rec_props(*points_scorer.storage, nearq, level_m as int, Seq::empty());
            lemma_select_nonempty(*points_scorer.storage, nearq, level_m as int);
            assert forall|k: int| 0 <= k < links@.len() implies {
                let x = #[trigger] links@[k];
                &&& x != point_id
                &&& self.inserted@.contains(x as int)
                &&& (x as int) < self.point_count()
                &&& (level as int) < self.layers_of(x as int)
            } by {
                let j = choose|j: int| 0 <= j < nearq.len() && (#[trigger] nearq[j]).idx
                    == links@[k];
            }
        }
        let mut neighbor_ids: Vec<u32> = Vec::new();
        let mut neighbor_links: Vec<Vec<u32>> = Vec::new();
        let mut k: usize = 0;
        while k < links.len()
            invariant
                0 <= k <= links@.len(),
                neighbor_ids@ == links@.take(k as int),
                neighbor_links@.len() == k,
                forall|t: int|
                    0 <= t < k ==> self.neighbor_list_ok(
                        self.inserted@,
                        point_id,
                        level as int,
                        links@[t],
                        (#[trigger] neighbor_links@[t])@,
                    ),
                forall|t: int|
                    0 <= t < k ==> {
                        let nb = links@[t];
                        if self.list_at(nb as int, level as int).len() < self.spec_m(
                            level as int,
                        ) {
                            (#[trigger] neighbor_links@[t])@ == self.list_at(
                                nb as int,
                                level as int,
                            ).push(point_id)
                        } else {
                            neighbor_links@[t]@ == select_spec(
                                *points_scorer.storage,
                                recip_fold(
                                    *points_scorer,
                                    point_id,
                                    nb,
                                    self.list_at(nb as int, level as int),
                                    self.spec_m(level as int),
                                ),
                                self.spec_m(level as int),
                            )
                        }
                    },
            decreases links@.len() - k,
        {
            let other_point = links[k];
            proof {
                assert(links@[k as int] == other_point);
                assert(self.list_ok(self.inserted@, other_point as int, level as int));
                assert forall|i: int|
                    0 <= i < self.list_at(other_point as int, level as int).len() implies (
                #[trigger] self.list_at(other_point as int, level as int)[i]) != point_id by {
                    if self.list_at(other_point as int, level as int)[i] == point_id {
                        assert(self.list_at(other_point as int, level as int).contains(point_id));
                        assert(self.from_level(level as int, point_id));
                        assert(false);
                    }
                }
            }
            let row = &self.links_layers[other_point as usize][level];
            if row.len() < level_m {
                let mut new_list = copy_links(row);
                new_list.push(point_id);
                proof {
                    let lst = new_list@;
                    assert forall|i: int| 0 <= i < lst.len() implies self.link_ok(
                        self.inserted@.insert(point_id as int),
                        other_point as int,
                        level as int,
                        #[trigger] lst[i],
                    ) by {
                        if i < lst.len() - 1 {
                            assert(self.link_ok(
                                self.inserted@,
                                other_point as int,
                                level as int,
                                row@[i],
                            ));
                        }
                    }
                    assert(distinct_u32(lst)) by {
                        assert forall|i: int, j: int| 0 <= i < j < lst.len() implies lst[i]
                            != lst[j] by {
                            if j == lst.len() - 1 {
                                assert(lst[i] == row@[i] && lst[j] == point_id);
                            }
                        }
                    }
                }
                neighbor_ids.push(other_point);
                neighbor_links.push(new_list);
            } else {
                let mut cand_heap = CandidateFrontier::new();
                let own_score = points_scorer.score_internal(point_id, other_point);
                cand_heap.push(ScoredPointOffset { idx: point_id, score: own_score });
                proof {
                    assert((own_score as int) as i64 == own_score);
                    assert(cand_heap@ == recip_fold(
                        *points_scorer,
                        point_id,
                        other_point,
                        row@,
                        0,
                    ));
                }
                let mut t: usize = 0;
                while t < row.len() && t < level_m
                    invariant
                        0 <= t <= row@.len(),
                        cand_heap.wf(),
                        cand_heap@.len() == t + 1,
                        distinct_ids(cand_heap@),
                        forall|i: int|
                            0 <= i < cand_heap@.len() ==> ((#[trigger] cand_heap@[i]).idx
                                == point_id || exists|w: int|
                                0 <= w < t && row@[w] == cand_heap@[i].idx),
                        cand_heap@ == recip_fold(
                            *points_scorer,
                            point_id,
                            other_point,
                            row@,
                            t as int,
                        ),
                    decreases row@.len() - t,
                {
                    let link = row[t];
                    let ghost pre_heap = cand_heap@;
                    proof {
                        assert(self.link_ok(
                            self.inserted@,
                            other_point as int,
                            level as int,
                            row@[t as int],
                        ));
                        assert forall|i: int| 0 <= i < cand_heap@.len() implies (
                        #[trigger] cand_heap@[i]).idx != link by {
                            let x = cand_heap@[i].idx;
                            if x != point_id {
                                let w = choose|w: int| 0 <= w < t && row@[w] == x;
                                assert(row@[w] != row@[t as int]);
                            }
                        }
                    }
                    let sc = points_scorer.score_internal(link, other_point);
                    cand_heap.push(ScoredPointOffset { idx: link, score: sc });
                    proof {
                        assert((sc as int) as i64 == sc);
                        lemma_insert_desc_props(pre_heap, ScoredPointOffset { idx: link, score: sc });
                        assert forall|i: int| 0 <= i < cand_heap@.len() implies ((
                        #[trigger] cand_heap@[i]).idx == point_id || exists|w: int|
                            0 <= w < t + 1 && row@[w] == cand_heap@[i].idx) by {
                            if cand_heap@[i] == (ScoredPointOffset { idx: link, score: sc }) {
                                assert(row@[t as int] == cand_heap@[i].idx);
                            } else {
                                assert(pre_heap.contains(cand_heap@[i]));
                                let w = choose|w: int|
                                    0 <= w < pre_heap.len() && pre_heap[w] == cand_heap@[i];
                            }
                        }
                    }
                    t = t + 1;
                }
                let sorted_vec = cand_heap.into_vec();
                let ghost sortedq = sorted_vec@;
                proof {
                    assert(t == level_m);
                    assert(sortedq == recip_fold(
                        *points_scorer,
                        point_id,
                        other_point,
                        row@,
                        self.spec_m(level as int),
                    ));
                    assert forall|i: int|
                        0 <= i < sortedq.len() implies (((#[trigger] sortedq[i]).idx as int)
                        < points_scorer.s_count()) by {
                        let x = sortedq[i].idx;
                        if x != point_id {
                            let w = choose|w: int| 0 <= w < row@.len() && row@[w] == x;
                            assert(self.link_ok(
                                self.inserted@,
                                other_point as int,
                                level as int,
                                row@[w],
                            ));
                        }
                    }
                }
                let selected = Self::select_candidate_with_heuristic_from_sorted(
                    sorted_vec,
                    level_m,
                    points_scorer,
                );
                proof {
                    lemma_select_rec_props(
                        *points_scorer.storage,
                        sortedq,
                        level_m as int,
                        Seq::empty(),
                    );
                    assert forall|i: int| 0 <= i < selected@.len() implies self.link_ok(
                        self.inserted@.insert(point_id as int),
                        other_point as int,
                        level as int,
                        #[trigger] selected@[i],
                    ) by {
                        let j = choose|j: int|
                            0 <= j < sortedq.len() && (#[trigger] sortedq[j]).idx == selected@[i];
                        let x = selected@[i];
                        if x != point_id {
                            let w = choose|w: int| 0 <= w < row@.len() && row@[w] == x;
                            assert(self.link_ok(
                                self.inserted@,
                                other_point as int,
                                level as int,
                                row@[w],
                            ));
                        }
                    }
                }
                neighbor_ids.push(other_point);
                neighbor_links.push(selected);
            }
            k = k + 1;
            proof {
                assert(neighbor_ids@ =~= links@.take(k as int));
            }
        }
        proof {
            assert(links@.take(links@.len() as int) =~= links@);
        }
        let response = GraphLinkResponse {
            point_id,
            level,
            entry: response_entry,
            links,
            neighbor_ids,
            neighbor_links,
        };
        proof {
            assert forall|kk: int| 0 <= kk < response.links@.len() implies {
                let nb = #[trigger] response.links@[kk];
                if old(self).list_at(nb as int, level as int).len() < old(self).spec_m(
                    level as int,
                ) {
                    response.neighbor_links@[kk]@ == old(self).list_at(
                        nb as int,
                        level as int,
                    ).push(point_id)
                } else {
                    response.neighbor_links@[kk]@ == select_spec(
                        *points_scorer.storage,
                        recip_fold(
                            *points_scorer,
                            point_id,
                            nb,
                            old(self).list_at(nb as int, level as int),
                            old(self).spec_m(level as int),
                        ),
                        old(self).spec_m(level as int),
                    )
                }
            } by {
                assert(old(self).list_at(response.links@[kk] as int, level as int)
                    == self.list_at(response.links@[kk] as int, level as int));
            }
        }
        response
    }

    /// Offer one freshly scored point to the beam: push it into the
    /// best-so-far queue, and when it was actually admitted (not rejected
    /// and not displacing itself), also push it onto the frontier.
    pub fn process_candidate(
        nearest: &mut FixedLengthPriorityQueue,
        candidates: &mut CandidateFrontier,
        score_point: ScoredPointOffset,
    )
        requires
            old(nearest).wf(),
            old(candidates).wf(),
        ensures
            final(nearest).wf(),
            final(candidates).wf(),
            final(nearest).capacity == old(nearest).capacity,
            final(nearest)@ == qpush_spec(old(nearest)@, old(nearest).capacity as int, score_point),
            final(candidates)@ == (if push_admits(
                old(nearest)@,
                old(nearest).capacity as int,
                score_point,
            ) {
                insert_desc(old(candidates)@, score_point)
            } else {
                old(candidates)@
            }),
            old(nearest)@.len() <= final(nearest)@.len() <= old(nearest)@.len() + 1,
            old(candidates)@.len() <= final(candidates)@.len() <= old(candidates)@.len() + 1,
            forall|i: int|
                0 <= i < final(nearest)@.len() ==> #[trigger] final(nearest)@[i] == score_point
                    || old(nearest)@.contains(final(nearest)@[i]),
            forall|i: int|
                0 <= i < final(candidates)@.len() ==> #[trigger] final(candidates)@[i]
                    == score_point || old(candidates)@.contains(final(candidates)@[i]),
            (distinct_ids(old(nearest)@) && (forall|i: int|
                0 <= i < old(nearest)@.len() ==> (#[trigger] old(nearest)@[i]).idx
                    != score_point.idx)) ==> distinct_ids(final(nearest)@),
    {
        let ghost old_nearest = nearest@;
        let was_added = match nearest.push(score_point) {
            None => true,
            Some(removed) => removed.idx != score_point.idx,
        };
        proof {
            if old_nearest.len() < nearest.capacity {
                lemma_insert_desc_props(old_nearest, score_point);
            } else if ranks_before(score_point, old_nearest.last()) {
                assert(sorted_desc(old_nearest.drop_last()));
                lemma_insert_desc_props(old_nearest.drop_last(), score_point);
                assert(forall|i: int|
                    0 <= i < old_nearest.drop_last().len() ==> old_nearest.drop_last()[i]
                        == old_nearest[i]);
                assert forall|y: ScoredPointOffset|
                    old_nearest.drop_last().contains(y) implies old_nearest.contains(y) by {
                    let i = choose|i: int|
                        0 <= i < old_nearest.drop_last().len() && old_nearest.drop_last()[i] == y;
                    assert(old_nearest[i] == y);
                }
                if distinct_ids(old_nearest) && (forall|i: int|
                    0 <= i < old_nearest.len() ==> (#[trigger] old_nearest[i]).idx
                        != score_point.idx) {
                    assert(distinct_ids(old_nearest.drop_last()));
                }
            }
        }
        if was_added {
            let ghost old_cands = candidates@;
            candidates.push(score_point);
            proof {
                lemma_insert_desc_props(old_cands, score_point);
            }
        }
    }

    /// Pick up to `m` neighbors from candidates already sorted in
    /// descending query-score order, accepting a candidate exactly when no
    /// already-accepted point scores against it better than its own query
    /// score.
    pub fn select_candidate_with_heuristic_from_sorted(
        candidates: Vec<ScoredPointOffset>,
        m: usize,
        points_scorer: &FilteredScorer,
    ) -> (r: Vec<u32>)
        requires
            points_scorer.wf(),
            forall|i: int|
                0 <= i < candidates@.len() ==> ((#[trigger] candidates@[i]).idx as int)
                    < points_scorer.s_count(),
        ensures
            r@ == select_spec(*points_scorer.storage, candidates@, m as int),
            r@.len() <= m,
    {
        let ghost st = *points_scorer.storage;
        let mut result: Vec<u32> = Vec::new();
        let mut i: usize = 0;
        while i < candidates.len()
            invariant
                0 <= i <= candidates@.len(),
                result@ == select_rec(st, candidates@.take(i as int), m as int, Seq::empty()),
                result@.len() <= m,
                forall|t: int|
                    0 <= t < result@.len() ==> ((#[trigger] result@[t]) as int)
                        < points_scorer.s_count(),
            decreases candidates@.len() - i,
        {
            let c = candidates[i];
            let mut good = true;
            let mut j: usize = 0;
            while j < result.len() && good
                invariant
                    0 <= j <= result@.len(),
                    good ==> forall|t: int|
                        0 <= t < j ==> dot_spec(
                            st.vec_at(c.idx as int),
                            st.vec_at(#[trigger] result@[t] as int),
                        ) <= c.score,
                    !good ==> exists|t: int|
                        0 <= t < j && dot_spec(
                            st.vec_at(c.idx as int),
                            st.vec_at(#[trigger] result@[t] as int),
                        ) > c.score,
                decreases result@.len() - j,
            {
                let d = points_scorer.score_internal(c.idx, result[j]);
                if d > c.score {
                    good = false;
                }
                j = j + 1;
            }
            proof {
                assert(good == sel_good(st, result@, c));
                lemma_select_rec_push(st, candidates@.take(i as int), c, m as int, Seq::empty());
                assert(candidates@.take(i as int + 1) =~= candidates@.take(i as int).push(c));
            }
            if result.len() < m && good {
                result.push(c.idx);
            }
            i = i + 1;
        }
        proof {
            assert(candidates@.take(candidates@.len() as int) =~= candidates@);
        }
        result
    }

    /// Pick up to `m` neighbors from a beam-search result queue, consuming
    /// it in descending rank order.
    pub fn select_candidates_with_heuristic(
        candidates: FixedLengthPriorityQueue,
        m: usize,
        points_scorer: &FilteredScorer,
    ) -> (r: Vec<u32>)
        requires
            points_scorer.wf(),
            forall|i: int|
                0 <= i < candidates@.len() ==> ((#[trigger] candidates@[i]).idx as int)
                    < points_scorer.s_count(),
        ensures
            r@ == select_spec(*points_scorer.storage, candidates@, m as int),
            r@.len() <= m,
    {
        let closest = candidates.into_sorted_vec();
        Self::select_candidate_with_heuristic_from_sorted(closest, m, points_scorer)
    }

    /// Greedy descent: from `entry_point` at `top_level`, repeatedly adopt
    /// any higher-scoring neighbor on the current layer, dropping one layer
    /// when no neighbor improves, down to `target_level`. The result is the
    /// best known anchor occupying `target_level`, with its true query
    /// score: it never scores below the entry point, and when any layer was
    /// descended it is a local maximum there — no admissible neighbor of it
    /// on layer `target_level + 1` scores higher.
    pub fn search_entry(
        &self,
        entry_point: u32,
        top_level: usize,
        target_level: usize,
        points_scorer: &FilteredScorer,
    ) -> (r: ScoredPointOffset)
        requires
            self.wf(),
            self.scorer_ok(*points_scorer),
            (entry_point as int) < self.point_count(),
            (top_level as int) < self.layers_of(entry_point as int),
            target_level <= top_level,
        ensures
            (r.idx as int) < self.point_count(),
            (target_level as int) < self.layers_of(r.idx as int),
            r.idx == entry_point || exists|l: int|
                target_level < l <= top_level && self.from_level(l, r.idx),
            r.score == points_scorer.query_score(r.idx as int),
            -SCORE_LIMIT <= r.score <= SCORE_LIMIT,
            r.score >= points_scorer.query_score(entry_point as int),
            r.idx == entry_point || points_scorer.admits(r.idx as int),
            top_level > target_level ==> (forall|i: int|
                0 <= i < self.list_at(r.idx as int, target_level as int + 1).len()
                    && points_scorer.admits(
                    #[trigger] self.list_at(r.idx as int, target_level as int + 1)[i] as int,
                ) ==> points_scorer.query_score(
                    self.list_at(r.idx as int, target_level as int + 1)[i] as int,
                ) <= r.score),
    {
        let mut links: Vec<u32> = Vec::new();
        let mut current_point = ScoredPointOffset {
            idx: entry_point,
            score: points_scorer.score_point(entry_point),
        };
        let mut level = top_level;
        while level > target_level
            invariant
                target_level <= level <= top_level,
                (current_point.idx as int) < self.point_count(),
                (level as int) < self.layers_of(current_point.idx as int),
                current_point.idx == entry_point || exists|l: int|
                    target_level < l <= top_level && self.from_level(l, current_point.idx),
                current_point.score == points_scorer.query_score(current_point.idx as int),
                -SCORE_LIMIT <= current_point.score <= SCORE_LIMIT,
                current_point.score >= points_scorer.query_score(entry_point as int),
                current_point.idx == entry_point || points_scorer.admits(current_point.idx as int),
                level < top_level ==> (forall|i: int|
                    0 <= i < self.list_at(current_point.idx as int, level as int + 1).len()
                        && points_scorer.admits(
                        #[trigger] self.list_at(current_point.idx as int, level as int + 1)[i]
                            as int,
                    ) ==> points_scorer.query_score(
                        self.list_at(current_point.idx as int, level as int + 1)[i] as int,
                    ) <= current_point.score),
            decreases level,
        {
            let limit = self.get_m(level);
            #[verifier::loop_isolation(true)]
            loop
                invariant
                    self.wf(),
                    self.scorer_ok(*points_scorer),
                    limit == self.spec_m(level as int),
                    target_level < level <= top_level,
                    (current_point.idx as int) < self.point_count(),
                    (level as int) < self.layers_of(current_point.idx as int),
                    current_point.idx == entry_point || exists|l: int|
                        target_level < l <= top_level && self.from_level(l, current_point.idx),
                    current_point.score == points_scorer.query_score(current_point.idx as int),
                    -SCORE_LIMIT <= current_point.score <= SCORE_LIMIT,
                    current_point.score >= points_scorer.query_score(entry_point as int),
                    current_point.idx == entry_point || points_scorer.admits(
                        current_point.idx as int,
                    ),
                ensures
                    (current_point.idx as int) < self.point_count(),
                    (level as int) < self.layers_of(current_point.idx as int),
                    current_point.idx == entry_point || exists|l: int|
                        target_level < l <= top_level && self.from_level(l, current_point.idx),
                    current_point.score == points_scorer.query_score(current_point.idx as int),
                    -SCORE_LIMIT <= current_point.score <= SCORE_LIMIT,
                    current_point.score >= points_scorer.query_score(entry_point as int),
                    current_point.idx == entry_point || points_scorer.admits(
                        current_point.idx as int,
                    ),
                    forall|i: int|
                        0 <= i < self.list_at(current_point.idx as int, level as int).len()
                            && points_scorer.admits(
                            #[trigger] self.list_at(current_point.idx as int, level as int)[i]
                                as int,
                        ) ==> points_scorer.query_score(
                            self.list_at(current_point.idx as int, level as int)[i] as int,
                        ) <= current_point.score,
                decreases SCORE_LIMIT - current_point.score,
            {
                let mut changed = false;
                let ghost anchor = current_point.idx;
                let ghost anchor_spo = current_point;
                links.clear();
                let row = &self.links_layers[current_point.idx as usize][level];
                let mut t: usize = 0;
                while t < row.len()
                    invariant
                        0 <= t <= row@.len(),
                        links@ == row@.take(t as int),
                    decreases row@.len() - t,
                {
                    links.push(row[t]);
                    proof {
                        assert(links@ =~= row@.take(t as int + 1));
                    }
                    t = t + 1;
                }
                proof {
                    assert(row@.take(row@.len() as int) =~= row@);
                    assert(self.list_ok(self.inserted@, anchor as int, level as int));
                }
                let ghost pre_links = links@;
                let scores = points_scorer.score_points(&mut links, limit);
                proof {
                    points_scorer.lemma_admitted_prefix_props(pre_links, limit as int);
                    points_scorer.lemma_admitted_prefix_complete(pre_links, limit as int);
                }
                let ghost kept = links@;
                let ghost start_score = current_point.score;
                let mut u: usize = 0;
                while u < scores.len()
                    invariant
                        0 <= u <= scores@.len(),
                        scores@.len() == kept.len(),
                        (current_point.idx as int) < self.point_count(),
                        (level as int) < self.layers_of(current_point.idx as int),
                        current_point.idx == entry_point || exists|l: int|
                            target_level < l <= top_level && self.from_level(l, current_point.idx),
                        current_point.score == points_scorer.query_score(current_point.idx as int),
                        -SCORE_LIMIT <= current_point.score <= SCORE_LIMIT,
                        current_point.score >= points_scorer.query_score(entry_point as int),
                        current_point.idx == entry_point || points_scorer.admits(
                            current_point.idx as int,
                        ),
                        current_point.score >= start_score,
                        changed ==> current_point.score > start_score,
                        !changed ==> current_point == anchor_spo,
                        !changed ==> (forall|v: int|
                            0 <= v < u ==> (#[trigger] scores@[v]).score <= current_point.score),
                    decreases scores@.len() - u,
                {
                    let sp = scores[u];
                    if sp.score > current_point.score {
                        changed = true;
                        proof {
                            assert(points_scorer.admitted_prefix(pre_links, limit as int)[u as int]
                                == links@[u as int]);
                            assert(points_scorer.admits(links@[u as int] as int));
                            assert(pre_links.contains(links@[u as int]));
                            let w = choose|w: int|
                                0 <= w < pre_links.len() && pre_links[w] == links@[u as int];
                            assert(self.link_ok(
                                self.inserted@,
                                anchor as int,
                                level as int,
                                pre_links[w],
                            ));
                            assert(self.list_at(anchor as int, level as int).contains(sp.idx));
                            assert(self.from_level(level as int, sp.idx));
                        }
                        current_point = sp;
                    }
                    u = u + 1;
                }
                if !changed {
                    proof {
                        let lst = self.list_at(current_point.idx as int, level as int);
                        assert(lst == pre_links);
                        assert forall|i: int|
                            0 <= i < lst.len() && points_scorer.admits(
                                #[trigger] lst[i] as int,
                            ) implies points_scorer.query_score(lst[i] as int)
                            <= current_point.score by {
                            assert(kept.contains(lst[i]));
                            let v = choose|v: int| 0 <= v < kept.len() && kept[v] == lst[i];
                            assert(scores@[v].idx == lst[i]);
                            assert(scores@[v].score <= current_point.score);
                        }
                    }
                    break;
                }
            }
            level = level - 1;
        }
        current_point
    }

}

} // verus!
