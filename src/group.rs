//! A connected region of same-terrain segments.
use vstd::prelude::*;
use crate::data::Terrain;
use crate::hex::{Pos, Rotation};
use crate::map::SegmentIndex;

verus! {

/// Index of a group in the analysis' list of groups.
pub type GroupIndex = usize;

/// A maximal set of segments joined by matching edges under one group
/// terrain, with the edges it leaves open towards cells without a tile.
pub struct Group {
    /// The terrain the group is formed under.
    pub terrain: Terrain,
    /// The member segments, each once.
    pub segment_indices: Vec<SegmentIndex>,
    /// Each open edge as the empty cell it faces and the member's direction
    /// towards it.
    pub open_edges: Vec<(Pos, Rotation)>,
}

impl Group {
    /// The number of member segments.
    pub fn size(&self) -> (r: usize)
        ensures
            r == self.segment_indices@.len(),
    {
        self.segment_indices.len()
    }

    /// Whether the group has no open edge left.
    pub fn is_closed(&self) -> (r: bool)
        ensures
            r == (self.open_edges@.len() == 0),
    {
        self.open_edges.len() == 0
    }
}

} // verus!
