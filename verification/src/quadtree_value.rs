//! What the quadtree asks of the objects it tracks.

use crate::region::Region;
use vstd::prelude::*;
use vstd::std_specs::cmp::PartialEqSpec;

verus! {

/// An object that the quadtree can track: it has an identity that stays the
/// same while the object moves, and a bounding region that says where it is
/// now.
///
/// `==` compares identities only. Two values that stand for the same object
/// at different places are equal.
pub trait QuadtreeValue: PartialEq + Eq + Clone {
    /// The identity of the object.
    spec fn identity(&self) -> int;

    /// The bounding region of the object.
    spec fn rect(&self) -> Region;

    /// `==` is decided by the identity alone.
    proof fn lemma_eq_is_identity(&self, other: &Self)
        ensures
            Self::obeys_eq_spec(),
            self.eq_spec(other) <==> self.identity() == other.identity(),
    ;

    fn get_rect(&self) -> (r: &Region)
        ensures
            *r == self.rect(),
    ;
}

} // verus!
