//! The entry-point registry: a small set of high-layer seed descriptors,
//! at most one per active filter context, used to bootstrap greedy descent.

use vstd::prelude::*;

use crate::scorer::FilteredScorer;

verus! {

/// A seed descriptor: a point and its top layer.
#[derive(Clone, Copy, PartialEq, Eq, Structural, Debug)]
pub struct EntryPoint {
    pub point_id: u32,
    pub level: usize,
}

/// The index of the first stored descriptor whose point the scorer admits,
/// scanning from position `i`.
pub open spec fn first_admissible_from(
    s: Seq<EntryPoint>,
    scorer: FilteredScorer,
    i: int,
) -> Option<int>
    decreases s.len() - i when 0 <= i <= s.len()
{
    if i >= s.len() {
        None
    } else if scorer.admits(s[i].point_id as int) {
        Some(i)
    } else {
        first_admissible_from(s, scorer, i + 1)
    }
}

/// A found index lies within the scanned range and its point is admitted.
pub proof fn lemma_first_admissible_bounds(s: Seq<EntryPoint>, scorer: FilteredScorer, i: int)
    requires
        0 <= i <= s.len(),
    ensures
        match first_admissible_from(s, scorer, i) {
            Some(j) => i <= j < s.len() && scorer.admits(s[j].point_id as int),
            None => true,
        },
    decreases s.len() - i,
{
    if i < s.len() && !scorer.admits(s[i].point_id as int) {
        lemma_first_admissible_bounds(s, scorer, i + 1);
    }
}

/// Registry of up to `num` seed descriptors.
pub struct EntryPoints {
    pub entry_points: Vec<EntryPoint>,
    pub num: usize,
}

impl EntryPoints {
    pub open spec fn view(self) -> Seq<EntryPoint> {
        self.entry_points@
    }

    pub fn new(num: usize) -> (r: Self)
        ensures
            r@ == Seq::<EntryPoint>::empty(),
            r.num == num,
    {
        EntryPoints { entry_points: Vec::new(), num }
    }

    /// Offer a new point to the registry. If no stored descriptor passes the
    /// scorer's filter, the new point is installed (capacity permitting) and
    /// `None` comes back: the caller has no seed and the new point is itself
    /// the seed. Otherwise the first admissible descriptor comes back, and,
    /// when the new point's layer is strictly higher, the new point replaces
    /// it — after the old one was picked as the returned seed.
    pub fn new_point(
        &mut self,
        new_point: u32,
        level: usize,
        scorer: &FilteredScorer,
    ) -> (r: Option<EntryPoint>)
        requires
            scorer.wf(),
        ensures
            final(self).num == old(self).num,
            match first_admissible_from(old(self)@, *scorer, 0) {
                None => r is None && (if old(self)@.len() < old(self).num {
                    final(self)@ == old(self)@.push(EntryPoint { point_id: new_point, level })
                } else {
                    final(self)@ == old(self)@
                }),
                Some(i) => r == Some(old(self)@[i]) && (if level > old(self)@[i].level {
                    final(self)@ == old(self)@.update(i, EntryPoint { point_id: new_point, level })
                } else {
                    final(self)@ == old(self)@
                }),
            },
    {
        let n = self.entry_points.len();
        let mut i: usize = 0;
        while i < n
            invariant
                0 <= i <= n,
                n == self@.len(),
                *self == *old(self),
                first_admissible_from(self@, *scorer, 0) == first_admissible_from(
                    self@,
                    *scorer,
                    i as int,
                ),
            decreases n - i,
        {
            let ep = self.entry_points[i];
            if scorer.check_vector(ep.point_id) {
                if level > ep.level {
                    self.entry_points[i] = EntryPoint { point_id: new_point, level };
                }
                return Some(ep);
            }
            i = i + 1;
        }
        if self.entry_points.len() < self.num {
            self.entry_points.push(EntryPoint { point_id: new_point, level });
        }
        None
    }
}

} // verus!
