//! Priority containers for the insertion engine.
//!
//! Two distinct abstractions: [`FixedLengthPriorityQueue`], the bounded
//! "best-so-far" set constrained by `ef_construct` (a min-of-max structure:
//! full pushes evict the worst element), and [`CandidateFrontier`], the
//! unbounded best-first frontier of the beam search. Both keep their
//! elements sorted in descending rank order, so every operation is a
//! deterministic function of its inputs.

use vstd::prelude::*;

use crate::scored::{cmp_ranks_before, distinct_ids, ranks_before, sorted_desc, ScoredPointOffset};

verus! {

/// The index at which `x` belongs in the descending-rank sequence `s`:
/// the first position whose element `x` outranks, or `s.len()` if none.
pub open spec fn insert_pos(s: Seq<ScoredPointOffset>, x: ScoredPointOffset) -> int
    decreases s.len(),
{
    if s.len() == 0 {
        0
    } else if ranks_before(x, s[0]) {
        0
    } else {
        1 + insert_pos(s.drop_first(), x)
    }
}

/// `s` with `x` inserted at its rank position.
pub open spec fn insert_desc(s: Seq<ScoredPointOffset>, x: ScoredPointOffset) -> Seq<
    ScoredPointOffset,
> {
    s.insert(insert_pos(s, x), x)
}

pub proof fn lemma_insert_pos_range(s: Seq<ScoredPointOffset>, x: ScoredPointOffset)
    ensures
        0 <= insert_pos(s, x) <= s.len(),
        forall|i: int| 0 <= i < insert_pos(s, x) ==> !ranks_before(x, s[i]),
        insert_pos(s, x) < s.len() ==> ranks_before(x, s[insert_pos(s, x)]),
    decreases s.len(),
{
    if s.len() > 0 && !ranks_before(x, s[0]) {
        lemma_insert_pos_range(s.drop_first(), x);
        assert forall|i: int| 0 <= i < insert_pos(s, x) implies !ranks_before(x, s[i]) by {
            if i > 0 {
                assert(s.drop_first()[i - 1] == s[i]);
                assert(!ranks_before(x, s.drop_first()[i - 1]));
            }
        }
        if insert_pos(s, x) < s.len() {
            assert(s.drop_first()[insert_pos(s, x) - 1] == s[insert_pos(s, x)]);
        }
    }
}

/// The rank position is pinned down by the two boundary facts the
/// executable search establishes.
pub proof fn lemma_insert_pos_unique(s: Seq<ScoredPointOffset>, x: ScoredPointOffset, k: int)
    requires
        0 <= k <= s.len(),
        forall|i: int| 0 <= i < k ==> !ranks_before(x, s[i]),
        k < s.len() ==> ranks_before(x, s[k]),
    ensures
        insert_pos(s, x) == k,
    decreases s.len(),
{
    if s.len() > 0 {
        if ranks_before(x, s[0]) {
            assert(k == 0);
        } else {
            assert(forall|i: int|
                0 <= i < s.drop_first().len() ==> s.drop_first()[i] == s[i + 1]);
            lemma_insert_pos_unique(s.drop_first(), x, k - 1);
        }
    }
}

/// Inserting at the rank position keeps the sequence sorted, adds exactly
/// one element, and leaves the multiset of ids as the old ones plus `x`.
pub proof fn lemma_insert_desc_props(s: Seq<ScoredPointOffset>, x: ScoredPointOffset)
    requires
        sorted_desc(s),
    ensures
        insert_desc(s, x).len() == s.len() + 1,
        sorted_desc(insert_desc(s, x)),
        forall|i: int|
            0 <= i < insert_desc(s, x).len() ==> insert_desc(s, x)[i] == x || s.contains(
                insert_desc(s, x)[i],
            ),
        insert_desc(s, x).contains(x),
        forall|y: ScoredPointOffset| s.contains(y) ==> insert_desc(s, x).contains(y),
        (forall|i: int| 0 <= i < s.len() ==> s[i].idx != x.idx) && distinct_ids(s)
            ==> distinct_ids(insert_desc(s, x)),
{
    let k = insert_pos(s, x);
    lemma_insert_pos_range(s, x);
    s.insert_ensures(k, x);
    let t = insert_desc(s, x);
    assert forall|i: int, j: int| 0 <= i < j < t.len() implies !ranks_before(t[j], t[i]) by {
        if j < k {
            assert(t[i] == s[i] && t[j] == s[j]);
        } else if i < k && j == k {
            assert(t[i] == s[i] && t[j] == x);
        } else if i < k && j > k {
            assert(t[i] == s[i] && t[j] == s[j - 1]);
        } else if i == k {
            assert(t[i] == x && t[j] == s[j - 1]);
            assert(ranks_before(x, s[k]));
            assert(!ranks_before(s[j - 1], s[k]) || j - 1 == k);
        } else {
            assert(t[i] == s[i - 1] && t[j] == s[j - 1]);
        }
    }
    assert forall|i: int| 0 <= i < t.len() implies t[i] == x || s.contains(t[i]) by {
        if i < k {
            assert(t[i] == s[i]);
        } else if i > k {
            assert(t[i] == s[i - 1]);
        }
    }
    assert(t[k] == x);
    assert forall|y: ScoredPointOffset| s.contains(y) implies t.contains(y) by {
        let i = choose|i: int| 0 <= i < s.len() && s[i] == y;
        if i < k {
            assert(t[i] == y);
        } else {
            assert(t[i + 1] == y);
        }
    }
    if (forall|i: int| 0 <= i < s.len() ==> s[i].idx != x.idx) && distinct_ids(s) {
        assert forall|i: int, j: int| 0 <= i < j < t.len() implies t[i].idx != t[j].idx by {
            let si = if i < k { i } else { i - 1 };
            let sj = if j < k { j } else { j - 1 };
            if i == k {
                assert(t[j] == s[sj]);
            } else if j == k {
                assert(t[i] == s[si]);
            } else {
                assert(t[i] == s[si] && t[j] == s[sj]);
            }
        }
    }
}

/// The queue after offering `x`: with room, `x` is inserted at its rank;
/// a full queue either evicts its minimum (when `x` outranks it) or stays
/// unchanged, rejecting `x`.
pub open spec fn qpush_spec(s: Seq<ScoredPointOffset>, cap: int, x: ScoredPointOffset) -> Seq<
    ScoredPointOffset,
> {
    if s.len() < cap {
        insert_desc(s, x)
    } else if ranks_before(x, s.last()) {
        insert_desc(s.drop_last(), x)
    } else {
        s
    }
}

/// Offering `x` admitted a new id: it went in without displacing anything,
/// or displaced an element carrying a different id.
pub open spec fn push_admits(s: Seq<ScoredPointOffset>, cap: int, x: ScoredPointOffset) -> bool {
    s.len() < cap || (ranks_before(x, s.last()) && s.last().idx != x.idx)
}

/// Find the rank position of `x` in the sorted vector `v`.
fn find_insert_pos(v: &Vec<ScoredPointOffset>, x: ScoredPointOffset) -> (k: usize)
    ensures
        k == insert_pos(v@, x),
{
    let mut k: usize = 0;
    while k < v.len() && !cmp_ranks_before(x, v[k])
        invariant
            0 <= k <= v@.len(),
            forall|i: int| 0 <= i < k ==> !ranks_before(x, v@[i]),
        decreases v@.len() - k,
    {
        k = k + 1;
    }
    proof {
        lemma_insert_pos_unique(v@, x, k as int);
    }
    k
}

/// Fixed-capacity container of scored offsets, kept sorted in descending
/// rank order. When full, a push either evicts the current minimum (the
/// "worst of the best") or rejects the pushed element itself.
pub struct FixedLengthPriorityQueue {
    pub elems: Vec<ScoredPointOffset>,
    pub capacity: usize,
}

impl FixedLengthPriorityQueue {
    /// The elements in descending rank order.
    pub open spec fn view(self) -> Seq<ScoredPointOffset> {
        self.elems@
    }

    pub open spec fn wf(self) -> bool {
        &&& sorted_desc(self.elems@)
        &&& self.elems@.len() <= self.capacity
        &&& self.capacity >= 1
    }

    pub fn new(capacity: usize) -> (q: Self)
        requires
            capacity >= 1,
        ensures
            q.wf(),
            q@ == Seq::<ScoredPointOffset>::empty(),
            q.capacity == capacity,
    {
        FixedLengthPriorityQueue { elems: Vec::new(), capacity }
    }

    pub fn len(&self) -> (n: usize)
        ensures
            n == self@.len(),
    {
        self.elems.len()
    }

    /// Insert `x`. Returns `None` when there was room; the evicted minimum
    /// when `x` outranked it in a full queue; `Some(x)` itself when `x` was
    /// rejected.
    pub fn push(&mut self, x: ScoredPointOffset) -> (displaced: Option<ScoredPointOffset>)
        requires
            old(self).wf(),
        ensures
            final(self).wf(),
            final(self).capacity == old(self).capacity,
            old(self)@.len() < old(self).capacity ==> displaced is None && final(self)@
                == insert_desc(old(self)@, x),
            old(self)@.len() == old(self).capacity && ranks_before(x, old(self)@.last())
                ==> displaced == Some(old(self)@.last()) && final(self)@ == insert_desc(
                old(self)@.drop_last(),
                x,
            ),
            old(self)@.len() == old(self).capacity && !ranks_before(x, old(self)@.last())
                ==> displaced == Some(x) && final(self)@ == old(self)@,
            final(self)@ == qpush_spec(old(self)@, old(self).capacity as int, x),
            final(self)@.len() >= old(self)@.len(),
    {
        if self.elems.len() < self.capacity {
            let k = find_insert_pos(&self.elems, x);
            proof {
                lemma_insert_pos_range(self.elems@, x);
                lemma_insert_desc_props(self.elems@, x);
            }
            self.elems.insert(k, x);
            None
        } else {
            let worst = self.elems[self.elems.len() - 1];
            if cmp_ranks_before(x, worst) {
                proof {
                    assert(sorted_desc(self.elems@.drop_last()));
                }
                self.elems.pop();
                let k = find_insert_pos(&self.elems, x);
                proof {
                    lemma_insert_pos_range(self.elems@, x);
                    lemma_insert_desc_props(self.elems@, x);
                }
                self.elems.insert(k, x);
                Some(worst)
            } else {
                Some(x)
            }
        }
    }

    /// The current minimum: the last element in descending order.
    pub fn top(&self) -> (r: Option<ScoredPointOffset>)
        ensures
            r == (if self@.len() == 0 {
                Option::<ScoredPointOffset>::None
            } else {
                Option::<ScoredPointOffset>::Some(self@.last())
            }),
    {
        if self.elems.len() == 0 {
            None
        } else {
            Some(self.elems[self.elems.len() - 1])
        }
    }

    /// The current maximum: the best element seen so far.
    pub fn best(&self) -> (r: Option<ScoredPointOffset>)
        ensures
            r == (if self@.len() == 0 {
                Option::<ScoredPointOffset>::None
            } else {
                Option::<ScoredPointOffset>::Some(self@[0])
            }),
    {
        if self.elems.len() == 0 {
            None
        } else {
            Some(self.elems[0])
        }
    }

    /// Consume the queue, yielding its elements in descending rank order,
    /// as the heuristic selector expects them.
    pub fn into_sorted_vec(self) -> (r: Vec<ScoredPointOffset>)
        ensures
            r@ == self@,
    {
        self.elems
    }
}

/// The unbounded best-first frontier of the beam search: pop always yields
/// the highest-ranked pending candidate.
pub struct CandidateFrontier {
    pub elems: Vec<ScoredPointOffset>,
}

impl CandidateFrontier {
    pub open spec fn view(self) -> Seq<ScoredPointOffset> {
        self.elems@
    }

    pub open spec fn wf(self) -> bool {
        sorted_desc(self.elems@)
    }

    pub fn new() -> (q: Self)
        ensures
            q.wf(),
            q@ == Seq::<ScoredPointOffset>::empty(),
    {
        CandidateFrontier { elems: Vec::new() }
    }

    pub fn len(&self) -> (n: usize)
        ensures
            n == self@.len(),
    {
        self.elems.len()
    }

    pub fn push(&mut self, x: ScoredPointOffset)
        requires
            old(self).wf(),
        ensures
            final(self).wf(),
            final(self)@ == insert_desc(old(self)@, x),
            final(self)@.len() == old(self)@.len() + 1,
    {
        let k = find_insert_pos(&self.elems, x);
        proof {
            lemma_insert_pos_range(self.elems@, x);
            lemma_insert_desc_props(self.elems@, x);
        }
        self.elems.insert(k, x);
    }

    /// Consume the frontier, yielding its elements in descending rank order.
    pub fn into_vec(self) -> (r: Vec<ScoredPointOffset>)
        ensures
            r@ == self@,
    {
        self.elems
    }

    /// Remove and return the best pending candidate.
    pub fn pop(&mut self) -> (r: Option<ScoredPointOffset>)
        requires
            old(self).wf(),
        ensures
            final(self).wf(),
            old(self)@.len() == 0 ==> r is None && final(self)@ == old(self)@,
            old(self)@.len() > 0 ==> r == Some(old(self)@[0]) && final(self)@
                == old(self)@.drop_first(),
    {
        if self.elems.len() == 0 {
            None
        } else {
            let x = self.elems.remove(0);
            proof {
                assert(self.elems@ =~= old(self).elems@.drop_first());
            }
            Some(x)
        }
    }
}

} // verus!
