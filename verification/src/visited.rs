//! The visited-set pool: reusable "was this id seen during this search?"
//! structures with an O(1) generation-bump clear.

use vstd::prelude::*;

use crate::HnswError;

verus! {

/// A fixed-capacity visited set. An id counts as visited when its counter
/// equals the current generation; bumping the generation clears the set
/// without touching the counters.
pub struct VisitedList {
    pub current_generation: u64,
    pub counters: Vec<u64>,
}

impl VisitedList {
    pub open spec fn capacity(self) -> int {
        self.counters@.len() as int
    }

    pub open spec fn wf(self) -> bool {
        &&& self.current_generation >= 1
        &&& forall|i: int| 0 <= i < self.counters@.len() ==> self.counters@[i]
            <= self.current_generation
    }

    /// The set of visited ids.
    pub open spec fn visited(self) -> Set<int> {
        Set::new(
            |id: int| 0 <= id < self.counters@.len() && self.counters@[id]
                == self.current_generation,
        )
    }

    pub fn new(capacity: usize) -> (v: Self)
        ensures
            v.wf(),
            v.capacity() == capacity,
            v.visited() == Set::<int>::empty(),
    {
        let v = VisitedList { current_generation: 1, counters: vec![0u64; capacity] };
        proof {
            assert(v.visited() =~= Set::<int>::empty());
        }
        v
    }

    /// The visited set is finite and no larger than the capacity.
    pub proof fn lemma_visited_card(self)
        ensures
            self.visited().finite(),
            self.visited().len() <= self.capacity(),
    {
        let range = vstd::set_lib::set_int_range(0, self.capacity());
        vstd::set_lib::lemma_int_range(0, self.capacity());
        assert(self.visited() <= range);
        vstd::set_lib::lemma_len_subset(self.visited(), range);
    }

    /// Clear the set by bumping the generation; on generation overflow the
    /// counters are rewound instead.
    pub fn next_generation(&mut self)
        requires
            old(self).wf(),
        ensures
            final(self).wf(),
            final(self).capacity() == old(self).capacity(),
            final(self).visited() == Set::<int>::empty(),
    {
        if self.current_generation == u64::MAX {
            let n = self.counters.len();
            let mut i: usize = 0;
            while i < n
                invariant
                    0 <= i <= n,
                    self.counters@.len() == n,
                    forall|j: int| 0 <= j < i ==> self.counters@[j] == 0,
                    self.current_generation == old(self).current_generation,
                decreases n - i,
            {
                self.counters[i] = 0;
                i = i + 1;
            }
            self.current_generation = 1;
        } else {
            self.current_generation = self.current_generation + 1;
        }
        proof {
            assert(self.visited() =~= Set::<int>::empty());
        }
    }

    /// Read-only membership test.
    pub fn check(&self, id: u32) -> (r: bool)
        requires
            id < self.capacity(),
        ensures
            r == self.visited().contains(id as int),
    {
        self.counters[id as usize] == self.current_generation
    }

    /// Returns whether `id` was already visited, and marks it.
    pub fn check_and_update_visited(&mut self, id: u32) -> (r: bool)
        requires
            old(self).wf(),
            id < old(self).capacity(),
        ensures
            final(self).wf(),
            final(self).capacity() == old(self).capacity(),
            r == old(self).visited().contains(id as int),
            final(self).visited() == old(self).visited().insert(id as int),
    {
        let was = self.counters[id as usize] == self.current_generation;
        self.counters[id as usize] = self.current_generation;
        proof {
            assert(self.visited() =~= old(self).visited().insert(id as int));
        }
        was
    }
}

/// A pool of visited sets, so a builder reuses the allocation across
/// searches. Requests above the configured maximum capacity are refused.
pub struct VisitedPool {
    pub lists: Vec<VisitedList>,
    pub max_capacity: usize,
}

impl VisitedPool {
    pub open spec fn wf(self) -> bool {
        forall|i: int| 0 <= i < self.lists@.len() ==> (#[trigger] self.lists@[i]).wf()
    }

    pub fn new(max_capacity: usize) -> (p: Self)
        ensures
            p.wf(),
            p.max_capacity == max_capacity,
    {
        VisitedPool { lists: Vec::new(), max_capacity }
    }

    /// Hand out a cleared visited set covering at least `num_points` ids.
    /// Fails with `CapacityExceeded` exactly when the request is above the
    /// configured maximum.
    pub fn get(&mut self, num_points: usize) -> (r: Result<VisitedList, HnswError>)
        requires
            old(self).wf(),
        ensures
            final(self).wf(),
            final(self).max_capacity == old(self).max_capacity,
            r is Err <==> num_points > old(self).max_capacity,
            r is Err ==> r == Err::<VisitedList, HnswError>(HnswError::CapacityExceeded),
            r is Ok ==> r->Ok_0.wf() && r->Ok_0.capacity() >= num_points && r->Ok_0.visited()
                == Set::<int>::empty(),
            r is Ok ==> final(self).lists@ == (if old(self).lists@.len() == 0 {
                old(self).lists@
            } else {
                old(self).lists@.drop_last()
            }),
            r is Err ==> *final(self) == *old(self),
    {
        if num_points > self.max_capacity {
            return Err(HnswError::CapacityExceeded);
        }
        match self.lists.pop() {
            Some(mut list) => {
                list.next_generation();
                if list.counters.len() < num_points {
                    let mut grown = list;
                    let ghost gen = grown.current_generation;
                    proof {
                        assert forall|j: int| 0 <= j < grown.counters@.len() implies grown
                            .counters@[j] != gen by {
                            assert(!grown.visited().contains(j));
                        }
                    }
                    while grown.counters.len() < num_points
                        invariant
                            grown.wf(),
                            grown.current_generation == gen,
                            forall|j: int| 0 <= j < grown.counters@.len() ==> grown.counters@[j]
                                != gen,
                        decreases num_points - grown.counters@.len(),
                    {
                        grown.counters.push(0);
                    }
                    proof {
                        assert(grown.visited() =~= Set::<int>::empty());
                    }
                    Ok(grown)
                } else {
                    Ok(list)
                }
            },
            None => Ok(VisitedList::new(num_points)),
        }
    }

    /// Return a set to the pool for reuse.
    pub fn return_back(&mut self, list: VisitedList)
        requires
            old(self).wf(),
            list.wf(),
        ensures
            final(self).wf(),
            final(self).max_capacity == old(self).max_capacity,
            final(self).lists@ == old(self).lists@.push(list),
    {
        self.lists.push(list);
    }
}

} // verus!
