//! A space partitioning tree ("dinotree") over axis aligned bounding boxes.
//!
//! Axis alternates every level. The divider of a node is placed at the median
//! of the left borders of its elements along the node's axis. Elements that
//! intersect a divider belong to that node, and the elements of a node are
//! sorted along the next axis.
use vstd::prelude::*;

pub mod geom;
pub mod elem;
pub mod oned;
pub mod tree;
pub mod bbox;
pub mod par;
pub mod assert_invariants;
pub mod treetimer;
pub mod tools;

use crate::geom::Rect;

verus! {

/// An object with an axis aligned bounding box.
pub trait HasAabb {
    /// The bounding box of the object.
    spec fn aabb(&self) -> Rect;

    /// The bounding box of the object.
    fn get(&self) -> (r: &Rect)
        ensures
            *r == self.aabb(),
    ;
}

/// An object with a bounding box and an inner value that may be changed without
/// changing the bounding box.
pub trait HasInner: HasAabb {
    type Inner;

    /// The inner value.
    spec fn spec_inner(&self) -> Self::Inner;

    /// The bounding box and the inner value.
    fn get_inner(&self) -> (r: (&Rect, &Self::Inner))
        ensures
            *r.0 == self.aabb(),
            *r.1 == self.spec_inner(),
    ;

    /// The bounding box, and mutable access to the inner value. Writing the inner value
    /// leaves the bounding box as it was.
    fn get_inner_mut(&mut self) -> (r: (&Rect, &mut Self::Inner))
        ensures
            *r.0 == old(self).aabb(),
            *r.1 == old(self).spec_inner(),
            final(self).aabb() == old(self).aabb(),
            final(self).spec_inner() == *final(r.1),
    ;
}

} // verus!
