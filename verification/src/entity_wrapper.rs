//! What the simulation stores in the quadtree for each of its entities.

use crate::quadtree::Quadtree;
use crate::quadtree_value::QuadtreeValue;
use crate::region::Point;
use crate::region::Region;
use vstd::prelude::*;

verus! {

/// An entity of the simulation as the quadtree sees it: the number that
/// names the entity, where it is, and the region around it.
#[derive(Clone, Copy, Debug, Eq)]
pub struct EntityWrapper {
    pub entity: u64,
    pub pos: Point,
    pub rect: Region,
}

impl EntityWrapper {
    pub fn new(entity: u64, pos: Point, rect: Region) -> (w: Self)
        ensures
            w == (EntityWrapper { entity, pos, rect }),
    {
        EntityWrapper { entity, pos, rect }
    }
}

impl PartialEq for EntityWrapper {
    /// Two wrappers are equal when they name the same entity, wherever it
    /// is.
    fn eq(&self, other: &Self) -> (r: bool) {
        self.entity == other.entity
    }
}

impl vstd::std_specs::cmp::PartialEqSpecImpl for EntityWrapper {
    open spec fn obeys_eq_spec() -> bool {
        true
    }

    open spec fn eq_spec(&self, other: &Self) -> bool {
        self.entity == other.entity
    }
}

impl QuadtreeValue for EntityWrapper {
    open spec fn identity(&self) -> int {
        self.entity as int
    }

    open spec fn rect(&self) -> Region {
        self.rect
    }

    proof fn lemma_eq_is_identity(&self, other: &Self) {
    }

    fn get_rect(&self) -> (r: &Region) {
        &self.rect
    }
}

/// The quadtree of the simulation's entities.
pub type EntityQuadtree = Quadtree<EntityWrapper>;
} // verus!
