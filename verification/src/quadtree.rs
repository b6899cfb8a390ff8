//! The quadtree: a root node over the whole tracked region.

use crate::node_model::NodeModel;
use crate::quadtree_node::QuadtreeNode;
use crate::quadtree_node::MAX_DEPTH;
use crate::quadtree_node::THRESHOLD;
use crate::quadtree_value::QuadtreeValue;
use crate::region::Region;
use vstd::prelude::*;

verus! {

/// A spatial index over a fixed region. Objects are stored by their bounding
/// regions; an object that does not lie within the tree's region is not
/// stored.
pub struct Quadtree<T: QuadtreeValue> {
    pub rect: Region,
    pub root: QuadtreeNode<T>,
}

impl<T: QuadtreeValue> View for Quadtree<T> {
    type V = NodeModel<T>;

    /// The tree is its root.
    open spec fn view(&self) -> NodeModel<T> {
        self.root@
    }
}

impl<T: QuadtreeValue> Quadtree<T> {
    /// The root covers the tree's region at depth 0, and every node is
    /// well-formed.
    pub open spec fn wf(&self) -> bool {
        &&& self.rect == self@.rect
        &&& self@.depth == 0
        &&& self@.wf()
    }

    /// An empty tree over `size`, with the limits [`THRESHOLD`] and
    /// [`MAX_DEPTH`].
    pub fn empty(size: Region) -> (tree: Self)
        requires
            size.wf(),
        ensures
            tree.wf(),
            tree.rect == size,
            tree@ == (NodeModel::<T> {
                rect: size,
                depth: 0,
                max_depth: MAX_DEPTH as nat,
                threshold: THRESHOLD as nat,
                values: Seq::empty(),
                children: Seq::empty(),
            }),
    {
        Quadtree { rect: size, root: QuadtreeNode::<T>::empty(size, 0) }
    }

    /// An empty tree over `size` whose leaves are split from `threshold`
    /// objects on, down to `max_depth`.
    pub fn with_limits(size: Region, threshold: usize, max_depth: usize) -> (tree: Self)
        requires
            size.wf(),
        ensures
            tree.wf(),
            tree.rect == size,
            tree@ == (NodeModel::<T> {
                rect: size,
                depth: 0,
                max_depth: max_depth as nat,
                threshold: threshold as nat,
                values: Seq::empty(),
                children: Seq::empty(),
            }),
    {
        Quadtree { rect: size, root: QuadtreeNode::<T>::with_limits(size, 0, threshold, max_depth) }
    }

    /// Whether the tree is as its operations keep it: the exec form of
    /// [`Quadtree::wf`]. It looks at every node.
    pub fn is_well_formed(&self) -> (b: bool)
        ensures
            b == self.wf(),
    {
        self.rect == self.root.rect && self.root.depth == 0 && self.root.is_well_formed()
    }

    /// Adds `value`, if it lies within the tree's region. If it does not,
    /// nothing happens.
    pub fn add(&mut self, value: T)
        requires
            old(self).wf(),
        ensures
            final(self).wf(),
            final(self).rect == old(self).rect,
            final(self)@ == old(self)@.insert(value),
    {
        if self.root.contains_rect(value.get_rect()) {
            self.root.add(value);
        }
    }

    /// Removes the object with the identity of `value` from the first node,
    /// parents before children, that stores one, and returns it. `None` if
    /// no node stores one.
    pub fn delete(&mut self, value: &T) -> (removed: Option<T>)
        requires
            old(self).wf(),
        ensures
            final(self).wf(),
            final(self).rect == old(self).rect,
            final(self)@ == old(self)@.remove(*value),
            removed == old(self)@.removed(*value),
    {
        proof {
            old(self)@.lemma_remove_wf(*value);
            old(self)@.lemma_find_path(value.identity());
            match old(self)@.find_path(value.identity()) {
                Some(p) => {
                    old(self)@.lemma_node_at_wf(p);
                },
                None => {},
            }
        }
        match self.query_value_mut(value) {
            Some(node) => node.delete(value),
            None => None,
        }
    }

    /// The first node, parents before children and children in order, that
    /// itself stores an object with the identity of `value`, to work on.
    pub fn query_value_mut(&mut self, value: &T) -> (r: Option<&mut QuadtreeNode<T>>)
        ensures
            final(self).rect == old(self).rect,
            match old(self)@.find_path(value.identity()) {
                Some(p) => {
                    &&& r.is_some()
                    &&& r.unwrap()@ == old(self)@.node_at(p)
                    &&& final(self)@ == old(self)@.with_node_at(p, final(r.unwrap())@)
                },
                None => r.is_none() && final(self)@ == old(self)@,
            },
    {
        self.root.find_value_mut(value)
    }

    /// The smallest node whose region holds `rect`, or `None` if the tree's
    /// region does not hold `rect`. The objects near `rect` are those that
    /// [`QuadtreeNode::get_all_descendant_values`] lists for that node.
    ///
    /// Objects stored at the nodes above that node are not among them, even
    /// where their regions meet `rect`: an object that straddles a boundary,
    /// or that an internal node with room has kept, is seen only by a query
    /// that ends at the node which stores it, or above.
    pub fn query_rect(&self, rect: &Region) -> (r: Option<&QuadtreeNode<T>>)
        ensures
            r.is_some() == self@.rect.contains_region(rect),
            r.is_some() ==> r.unwrap()@ == self@.node_at(self@.query_path(*rect)),
    {
        self.root.query_rect(rect)
    }

    /// As [`Quadtree::query_rect`], but the node is handed out to be changed.
    pub fn query_rect_mut(&mut self, rect: &Region) -> (r: Option<&mut QuadtreeNode<T>>)
        ensures
            final(self).rect == old(self).rect,
            r.is_some() == old(self)@.rect.contains_region(rect),
            match r {
                Some(node) => {
                    &&& node@ == old(self)@.node_at(old(self)@.query_path(*rect))
                    &&& final(self)@ == old(self)@.with_node_at(
                        old(self)@.query_path(*rect),
                        final(node)@,
                    )
                },
                None => final(self)@ == old(self)@,
            },
    {
        self.root.query_rect_mut(rect)
    }

    /// Whether `value` has to be stored anew: the tree's region holds it,
    /// and the smallest node whose region holds it does not store an object
    /// with its identity.
    pub fn is_stale(&self, value: &T) -> (b: bool)
        ensures
            b == self@.is_stale(*value),
    {
        match self.query_rect(value.get_rect()) {
            Some(node) => !node.contains_value(value),
            None => false,
        }
    }

    /// Takes note of where one object is now: if it has to be stored anew,
    /// it is deleted and added again.
    pub fn refresh(&mut self, value: T)
        requires
            old(self).wf(),
        ensures
            final(self).wf(),
            final(self).rect == old(self).rect,
            final(self)@ == old(self)@.refresh(value),
    {
        if self.is_stale(&value) {
            self.delete(&value);
            self.add(value);
        }
    }
}

/// Brings the tree up to date once the objects have moved: each of `values`
/// says where one object is now, and is stored anew where the tree has it
/// elsewhere.
pub fn update_quadtree<T: QuadtreeValue>(quadtree: &mut Quadtree<T>, values: Vec<T>)
    requires
        old(quadtree).wf(),
    ensures
        final(quadtree).wf(),
        final(quadtree).rect == old(quadtree).rect,
        final(quadtree)@ == old(quadtree)@.refresh_all(values@),
{
    let ghost vals = values@;
    proof {
        assert(vals.skip(0) =~= vals);
    }
    for value in it: values
        invariant
            it.seq() == vals,
            quadtree.wf(),
            quadtree.rect == old(quadtree).rect,
            quadtree@.refresh_all(vals.skip(it.index())) == old(quadtree)@.refresh_all(vals),
    {
        proof {
            let rest = vals.skip(it.index());
            assert(rest.drop_first() =~= vals.skip(it.index() + 1));
        }
        quadtree.refresh(value);
    }
}

} // verus!
