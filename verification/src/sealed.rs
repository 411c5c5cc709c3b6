//! Sealing: converting a finished builder into a read-only graph.
//!
//! `seal` consumes the builder, so no insertion can follow it — mutation
//! after sealing is ruled out by ownership rather than by a runtime flag.
//! The adjacency lists of the sealed graph are exactly the builder's, list
//! for list.

use vstd::prelude::*;

use crate::builder::GraphLinearBuilder;
use crate::entry::EntryPoint;

verus! {

/// The read-only graph a sealed builder leaves behind: adjacency lists,
/// the entry-point registry, and the construction parameters.
pub struct HnswGraph {
    pub links: Vec<Vec<Vec<u32>>>,
    pub entries: Vec<EntryPoint>,
    pub m: usize,
    pub m0: usize,
    pub ef_construct: usize,
}

impl HnswGraph {
    pub open spec fn point_count(self) -> int {
        self.links@.len() as int
    }

    pub open spec fn layers_of(self, p: int) -> int {
        self.links@[p]@.len() as int
    }

    pub open spec fn list_at(self, p: int, l: int) -> Seq<u32> {
        self.links@[p]@[l]@
    }

    /// Number of layers the point occupies.
    pub fn levels(&self, point_id: u32) -> (r: usize)
        requires
            (point_id as int) < self.point_count(),
        ensures
            r == self.layers_of(point_id as int),
    {
        self.links[point_id as usize].len()
    }

    /// The neighbor list of `point_id` on `level`.
    pub fn neighbors(&self, point_id: u32, level: usize) -> (r: &Vec<u32>)
        requires
            (point_id as int) < self.point_count(),
            (level as int) < self.layers_of(point_id as int),
        ensures
            r@ == self.list_at(point_id as int, level as int),
    {
        &self.links[point_id as usize][level]
    }
}

impl GraphLinearBuilder {
    /// Seal the builder: its adjacency lists become the read-only graph's,
    /// bitwise equal, and the builder is gone, so nothing mutates them
    /// afterwards.
    pub fn seal(self) -> (g: HnswGraph)
        ensures
            g.links == self.links_layers,
            g.entries@ == self.entry_points@,
            g.m == self.m,
            g.m0 == self.m0,
            g.ef_construct == self.ef_construct,
    {
        HnswGraph {
            links: self.links_layers,
            entries: self.entry_points.entry_points,
            m: self.m,
            m0: self.m0,
            ef_construct: self.ef_construct,
        }
    }
}

} // verus!
