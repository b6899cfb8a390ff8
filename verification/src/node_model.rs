//! The mathematical model of a quadtree node.
//!
//! A [`NodeModel`] is what a node is, apart from how it is stored: its region,
//! its depth, its limits, the objects it holds in the order in which they
//! arrived, and its children.  The operations of the tree are defined here as
//! functions from models to models.

use crate::quadtree_value::QuadtreeValue;
use crate::region::Region;
use vstd::multiset::Multiset;
use vstd::prelude::*;

verus! {

pub struct NodeModel<T> {
    /// The region that the node covers.
    pub rect: Region,
    /// The distance from the root, which has depth 0.
    pub depth: nat,
    /// The depth at and beyond which a node is never split.
    pub max_depth: nat,
    /// The number of objects from which a leaf is split.
    pub threshold: nat,
    /// The objects stored at this node itself.
    pub values: Seq<T>,
    /// No children (a leaf), or the four quadrants.
    pub children: Seq<NodeModel<T>>,
}

/// The index of the first node from `from` on whose region holds `rect`.
pub open spec fn first_containing<T>(nodes: Seq<NodeModel<T>>, rect: Region, from: int) -> Option<
    int,
>
    decreases nodes.len() - from,
{
    if from < 0 || from >= nodes.len() {
        None
    } else if nodes[from].rect.contains_region(&rect) {
        Some(from)
    } else {
        first_containing(nodes, rect, from + 1)
    }
}

/// A path of child indices as they are stored, read as a path of the model.
pub open spec fn path_ints(path: Seq<usize>) -> Seq<int> {
    path.map_values(|i: usize| i as int)
}

impl<T: QuadtreeValue> NodeModel<T> {
    pub open spec fn is_leaf(self) -> bool {
        self.children.len() == 0
    }

    /// How many levels may still be added below this node.
    pub open spec fn budget(self) -> nat {
        if self.depth < self.max_depth {
            (self.max_depth - self.depth) as nat
        } else {
            0
        }
    }

    /// `child` is one level below `self`, under the same depth limit.
    pub open spec fn is_parent_of(self, child: Self) -> bool {
        &&& self.depth < self.max_depth
        &&& child.depth == self.depth + 1
        &&& child.max_depth == self.max_depth
    }

    /// The empty leaf over quadrant `i` of this node.
    pub open spec fn fresh_child(self, i: int) -> Self {
        NodeModel {
            rect: self.rect.spec_quadrants()[i],
            depth: self.depth + 1,
            max_depth: self.max_depth,
            threshold: self.threshold,
            values: Seq::empty(),
            children: Seq::empty(),
        }
    }

    pub open spec fn fresh_children(self) -> Seq<Self> {
        Seq::new(4, |i: int| self.fresh_child(i))
    }

    /// Some object stored at this node itself has the identity `id`.
    pub open spec fn has_identity(self, id: int) -> bool {
        exists|i: int| 0 <= i < self.values.len() && (#[trigger] self.values[i]).identity() == id
    }

    /// The position among the stored objects of the one with identity `id`.
    pub open spec fn index_of(self, id: int) -> int {
        choose|i: int| 0 <= i < self.values.len() && (#[trigger] self.values[i]).identity() == id
    }

    /// The first child whose region holds `rect`.
    pub open spec fn first_child_containing(self, rect: Region) -> Option<int> {
        first_containing(self.children, rect, 0)
    }

    /// This node with child `i` replaced.
    pub open spec fn with_child(self, i: int, child: Self) -> Self {
        NodeModel { children: self.children.update(i, child), ..self }
    }

    /// This node with other objects and children, all else unchanged.
    pub open spec fn with_contents(self, values: Seq<T>, children: Seq<Self>) -> Self {
        NodeModel { values, children, ..self }
    }

    // ------------------------------------------------------------------
    // Insertion
    // ------------------------------------------------------------------

    /// Stores `v` at this node itself. An object whose identity is already
    /// stored here is not stored again: the one that is here stays.
    pub open spec fn store(self, v: T) -> Self {
        if self.has_identity(v.identity()) {
            self
        } else {
            NodeModel { values: self.values.push(v), ..self }
        }
    }

    /// A leaf that is full and may still be split.
    pub open spec fn must_split(self) -> bool {
        &&& self.is_leaf()
        &&& self.depth < self.max_depth
        &&& self.values.len() >= self.threshold
    }

    /// Adds `v` to this node or to a node below it.
    ///
    /// A leaf that is full and above the depth limit is split first: it gets
    /// four empty children, and hands each of its objects to the first child
    /// whose region holds it. Then `v` is placed.
    pub open spec fn add(self, v: T) -> Self
        decreases self.budget(), 2nat, 0nat,
    {
        if self.must_split() {
            let filled = self.with_contents(Seq::empty(), self.fresh_children()).distribute(
                self.values,
            );
            self.with_contents(filled.values, filled.children).place(v)
        } else {
            self.place(v)
        }
    }

    /// This leaf after it has been split: its objects handed down to four
    /// new children, as far as a child's region holds them.
    pub open spec fn split(self) -> Self {
        let filled = self.with_contents(Seq::empty(), self.fresh_children()).distribute(
            self.values,
        );
        self.with_contents(filled.values, filled.children)
    }

    /// The path, in the tree after `add`, to the node at which `add` puts
    /// `v`, or at which it finds the identity of `v` stored already.
    pub open spec fn landing_path(self, v: T) -> Seq<int>
        decreases self.budget(),
    {
        let base = if self.must_split() {
            self.split()
        } else {
            self
        };
        if base.is_leaf() || base.values.len() < base.threshold {
            Seq::empty()
        } else {
            match base.first_child_containing(v.rect()) {
                Some(i) => if base.is_parent_of(base.children[i]) {
                    seq![i] + base.children[i].landing_path(v)
                } else {
                    Seq::empty()
                },
                None => Seq::empty(),
            }
        }
    }

    /// Places `v` without splitting this node. A leaf keeps it. An internal
    /// node keeps it while it holds fewer than `threshold` objects itself;
    /// after that it hands `v` to the first child whose region holds `v`,
    /// and keeps it if there is none.
    pub open spec fn place(self, v: T) -> Self
        decreases self.budget(), 1nat, 0nat,
    {
        if self.is_leaf() || self.values.len() < self.threshold {
            self.store(v)
        } else {
            match self.first_child_containing(v.rect()) {
                Some(i) => if self.is_parent_of(self.children[i]) {
                    self.with_child(i, self.children[i].add(v))
                } else {
                    self
                },
                None => self.store(v),
            }
        }
    }

    /// Hands the objects `vals` down, first to last: each goes to the first
    /// child whose region holds it, and stays at this node if there is none.
    pub open spec fn distribute(self, vals: Seq<T>) -> Self
        decreases self.budget(), 1nat, vals.len(),
    {
        if vals.len() == 0 {
            self
        } else {
            let v = vals[0];
            let next = match self.first_child_containing(v.rect()) {
                Some(i) => if self.is_parent_of(self.children[i]) {
                    self.with_child(i, self.children[i].add(v))
                } else {
                    self
                },
                None => self.store(v),
            };
            next.distribute(vals.drop_first())
        }
    }

    // ------------------------------------------------------------------
    // Enumeration
    // ------------------------------------------------------------------

    /// Every object stored at this node and below it: first the node's own,
    /// then those of each child's subtree in turn.
    pub open spec fn all_values(self) -> Seq<T>
        decreases self,
    {
        self.values + Self::values_of(self.children)
    }

    /// The objects of the subtrees of `nodes`, one subtree after the other.
    pub open spec fn values_of(nodes: Seq<Self>) -> Seq<T>
        decreases nodes,
    {
        if nodes.len() == 0 {
            Seq::empty()
        } else {
            Self::values_of(nodes.drop_last()) + nodes.last().all_values()
        }
    }

    /// This node and every node below it, parents before children.
    pub open spec fn all_nodes(self) -> Seq<Self>
        decreases self,
    {
        seq![self] + Self::nodes_of(self.children)
    }

    /// The nodes of the subtrees of `nodes`, one subtree after the other.
    pub open spec fn nodes_of(nodes: Seq<Self>) -> Seq<Self>
        decreases nodes,
    {
        if nodes.len() == 0 {
            Seq::empty()
        } else {
            Self::nodes_of(nodes.drop_last()) + nodes.last().all_nodes()
        }
    }

    /// No object is stored at this node or below it.
    pub open spec fn is_empty(self) -> bool {
        self.all_values().len() == 0
    }

    /// The objects stored at this node and below it, each as often as it is
    /// stored, in no order.
    pub open spec fn bag(self) -> Multiset<T> {
        self.all_values().to_multiset()
    }

    /// The objects stored in the subtrees of `nodes`, in no order.
    pub open spec fn bag_of(nodes: Seq<Self>) -> Multiset<T> {
        Self::values_of(nodes).to_multiset()
    }

    /// Some node of this subtree stores an object with the identity `id`.
    pub open spec fn holds_identity(self, id: int) -> bool {
        exists|k: int|
            0 <= k < self.all_values().len() && (#[trigger] self.all_values()[k]).identity() == id
    }

    // ------------------------------------------------------------------
    // Deletion
    // ------------------------------------------------------------------

    /// An internal node whose four subtrees hold no object.
    pub open spec fn prunable(self) -> bool {
        &&& !self.is_leaf()
        &&& forall|i: int| 0 <= i < self.children.len() ==> (#[trigger] self.children[i]).is_empty()
    }

    /// This node turned back into a leaf if its subtrees hold no object.
    pub open spec fn pruned(self) -> Self {
        if self.prunable() {
            NodeModel { children: Seq::empty(), ..self }
        } else {
            self
        }
    }

    /// This node without the stored object that has the identity of `v`.
    pub open spec fn without(self, v: T) -> Self {
        if self.has_identity(v.identity()) {
            NodeModel { values: self.values.remove(self.index_of(v.identity())), ..self }
        } else {
            self
        }
    }

    /// The object stored at this node itself that has the identity of `v`.
    pub open spec fn stored(self, v: T) -> Option<T> {
        if self.has_identity(v.identity()) {
            Some(self.values[self.index_of(v.identity())])
        } else {
            None
        }
    }

    /// The node after a deletion: pruned if its subtrees are empty, and
    /// without the object that has the identity of `v`.
    pub open spec fn delete(self, v: T) -> Self {
        self.pruned().without(v)
    }

    // ------------------------------------------------------------------
    // Paths
    // ------------------------------------------------------------------

    /// `path` names a node of this subtree: each entry is the index of a
    /// child to descend into.
    pub open spec fn has_path(self, path: Seq<int>) -> bool
        decreases path.len(),
    {
        path.len() == 0 || (0 <= path[0] < self.children.len() && self.children[path[0]].has_path(
            path.drop_first(),
        ))
    }

    /// The node that `path` leads to.
    pub open spec fn node_at(self, path: Seq<int>) -> Self
        decreases path.len(),
    {
        if path.len() == 0 || !(0 <= path[0] < self.children.len()) {
            self
        } else {
            self.children[path[0]].node_at(path.drop_first())
        }
    }

    /// This subtree with the node that `path` leads to replaced by `node`.
    pub open spec fn with_node_at(self, path: Seq<int>, node: Self) -> Self
        decreases path.len(),
    {
        if path.len() == 0 {
            node
        } else if !(0 <= path[0] < self.children.len()) {
            self
        } else {
            self.with_child(
                path[0],
                self.children[path[0]].with_node_at(path.drop_first(), node),
            )
        }
    }

    /// The path to the smallest node whose region holds `rect`, given that
    /// this node's region holds it: descend into the first child that holds
    /// `rect` for as long as there is one.
    pub open spec fn query_path(self, rect: Region) -> Seq<int>
        decreases self,
    {
        match self.first_child_containing(rect) {
            Some(i) => if 0 <= i < self.children.len() {
                seq![i] + self.children[i].query_path(rect)
            } else {
                Seq::empty()
            },
            None => Seq::empty(),
        }
    }

    /// The path to the first node, parents before children and children in
    /// order, that itself stores an object with the identity `id`.
    pub open spec fn find_path(self, id: int) -> Option<Seq<int>>
        decreases self, 0nat,
    {
        if self.has_identity(id) {
            Some(Seq::empty())
        } else {
            Self::find_path_in(self.children, id, 0)
        }
    }

    /// The path, starting with the index of a node of `nodes` from `from`
    /// on, to the first node that stores an object with the identity `id`.
    pub open spec fn find_path_in(nodes: Seq<Self>, id: int, from: int) -> Option<Seq<int>>
        decreases nodes, nodes.len() - from,
    {
        if from < 0 || from >= nodes.len() {
            None
        } else {
            match nodes[from].find_path(id) {
                Some(p) => Some(seq![from] + p),
                None => Self::find_path_in(nodes, id, from + 1),
            }
        }
    }

    // ------------------------------------------------------------------
    // The tree as a whole
    // ------------------------------------------------------------------

    /// The tree after adding `v` at the root: nothing changes if `v` does
    /// not lie within the root's region.
    pub open spec fn insert(self, v: T) -> Self {
        if self.rect.contains_region(&v.rect()) {
            self.add(v)
        } else {
            self
        }
    }

    /// The tree after deleting `v` at the first node that stores an object
    /// with its identity.
    pub open spec fn remove(self, v: T) -> Self {
        match self.find_path(v.identity()) {
            Some(p) => self.with_node_at(p, self.node_at(p).delete(v)),
            None => self,
        }
    }

    /// The object that deleting `v` takes out of the tree.
    pub open spec fn removed(self, v: T) -> Option<T> {
        match self.find_path(v.identity()) {
            Some(p) => self.node_at(p).stored(v),
            None => None,
        }
    }

    /// `v` has to be stored anew: the tree's region holds it, and the
    /// smallest node whose region holds it does not store an object with its
    /// identity.
    pub open spec fn is_stale(self, v: T) -> bool {
        &&& self.rect.contains_region(&v.rect())
        &&& !self.node_at(self.query_path(v.rect())).has_identity(v.identity())
    }

    /// The tree after one object has reported where it is now: if it has to
    /// be stored anew, it is deleted and added again.
    pub open spec fn refresh(self, v: T) -> Self {
        if self.is_stale(v) {
            self.remove(v).insert(v)
        } else {
            self
        }
    }

    /// The tree after the objects `vals` have reported where they are now,
    /// first to last.
    pub open spec fn refresh_all(self, vals: Seq<T>) -> Self
        decreases vals.len(),
    {
        if vals.len() == 0 {
            self
        } else {
            self.refresh(vals[0]).refresh_all(vals.drop_first())
        }
    }

    // ------------------------------------------------------------------
    // Well-formedness
    // ------------------------------------------------------------------

    /// Every object stored at this node itself lies within the node's region.
    pub open spec fn values_within(self) -> bool {
        forall|i: int|
            0 <= i < self.values.len() ==> self.rect.contains_region(
                &(#[trigger] self.values[i]).rect(),
            )
    }

    /// No two objects stored at this node itself have the same identity.
    pub open spec fn values_distinct(self) -> bool {
        forall|i: int, j: int|
            #![trigger self.values[i], self.values[j]]
            0 <= i < j < self.values.len() ==> self.values[i].identity()
                != self.values[j].identity()
    }

    /// Child `i` covers quadrant `i` of this node, one level down, under the
    /// same limits.
    pub open spec fn child_fits(self, i: int) -> bool {
        &&& self.children[i].rect == self.rect.spec_quadrants()[i]
        &&& self.children[i].depth == self.depth + 1
        &&& self.children[i].max_depth == self.max_depth
        &&& self.children[i].threshold == self.threshold
    }

    /// The invariant of a node, which holds of every node below it too.
    pub open spec fn wf(self) -> bool
        decreases self,
    {
        &&& self.rect.wf()
        &&& self.values_within()
        &&& self.values_distinct()
        &&& (self.children.len() == 0 || (self.children.len() == 4 && self.depth
            < self.max_depth))
        &&& forall|i: int|
            0 <= i < self.children.len() ==> self.child_fits(i) && (#[trigger] self.children[i]).wf()
    }
}

} // verus!
