//! Facts about the operations of [`NodeModel`] that the tree relies on.

use crate::node_model::first_containing;
use crate::node_model::NodeModel;
use crate::quadtree_value::QuadtreeValue;
use crate::region::lemma_quadrants_partition;
use crate::region::Region;
use vstd::prelude::*;

verus! {

/// `first_containing` finds the least index from `from` on whose node holds
/// `rect`, if there is one.
pub proof fn lemma_first_containing<T>(nodes: Seq<NodeModel<T>>, rect: Region, from: int)
    requires
        0 <= from,
    ensures
        match first_containing(nodes, rect, from) {
            Some(i) => {
                &&& from <= i < nodes.len()
                &&& nodes[i].rect.contains_region(&rect)
                &&& forall|j: int| from <= j < i ==> !(#[trigger] nodes[j]).rect.contains_region(&rect)
            },
            None => forall|j: int|
                from <= j < nodes.len() ==> !(#[trigger] nodes[j]).rect.contains_region(&rect),
        },
    decreases nodes.len() - from,
{
    if from < nodes.len() && !nodes[from].rect.contains_region(&rect) {
        lemma_first_containing(nodes, rect, from + 1);
    }
}

/// Which node `first_containing` finds depends on the nodes' regions alone.
pub proof fn lemma_first_containing_by_regions<T>(
    a: Seq<NodeModel<T>>,
    b: Seq<NodeModel<T>>,
    rect: Region,
    from: int,
)
    requires
        0 <= from,
        a.len() == b.len(),
        forall|i: int| 0 <= i < a.len() ==> (#[trigger] a[i]).rect == b[i].rect,
    ensures
        first_containing(a, rect, from) == first_containing(b, rect, from),
    decreases a.len() - from,
{
    if from < a.len() {
        if !a[from].rect.contains_region(&rect) {
            lemma_first_containing_by_regions(a, b, rect, from + 1);
        }
    }
}

impl<T: QuadtreeValue> NodeModel<T> {
    /// Two nodes cover the same region at the same depth under the same
    /// limits.
    pub open spec fn same_frame(self, other: Self) -> bool {
        &&& self.rect == other.rect
        &&& self.depth == other.depth
        &&& self.max_depth == other.max_depth
        &&& self.threshold == other.threshold
    }

    /// The first child that holds `rect` is one of the children, and holds
    /// `rect`.
    pub proof fn lemma_first_child_containing(self, rect: Region)
        ensures
            match self.first_child_containing(rect) {
                Some(i) => {
                    &&& 0 <= i < self.children.len()
                    &&& self.children[i].rect.contains_region(&rect)
                    &&& forall|j: int|
                        0 <= j < i ==> !(#[trigger] self.children[j]).rect.contains_region(&rect)
                },
                None => forall|j: int|
                    0 <= j < self.children.len() ==> !(#[trigger] self.children[j]).rect.contains_region(
                        &rect,
                    ),
            },
    {
        lemma_first_containing(self.children, rect, 0);
    }

    /// A well-formed leaf with empty children over its quadrants, and no
    /// objects of its own, is a well-formed internal node.
    pub proof fn lemma_fresh_children_wf(self)
        requires
            self.wf(),
            self.depth < self.max_depth,
        ensures
            self.with_contents(Seq::empty(), self.fresh_children()).wf(),
            self.with_contents(self.values, self.fresh_children()).wf(),
            self.fresh_children().len() == 4,
    {
        lemma_quadrants_partition(self.rect);
        let s = self.with_contents(Seq::empty(), self.fresh_children());
        assert forall|k: int| 0 <= k < s.children.len() implies s.child_fits(k) && (
        #[trigger] s.children[k]).wf() by {}
    }

    /// Adding an object that lies within a well-formed node leaves the node
    /// well-formed, over the same region, at the same depth.
    pub proof fn lemma_add_wf(self, v: T)
        requires
            self.wf(),
            self.rect.contains_region(&v.rect()),
        ensures
            self.add(v).wf(),
            self.add(v).same_frame(self),
        decreases self.budget(), 2nat, 0nat,
    {
        if self.must_split() {
            let start = self.with_contents(Seq::empty(), self.fresh_children());
            self.lemma_fresh_children_wf();
            start.lemma_distribute_wf(self.values);
            let filled = start.distribute(self.values);
            filled.lemma_place_wf(v);
        } else {
            self.lemma_place_wf(v);
        }
    }

    /// `place` keeps a well-formed node well-formed.
    pub proof fn lemma_place_wf(self, v: T)
        requires
            self.wf(),
            self.rect.contains_region(&v.rect()),
        ensures
            self.place(v).wf(),
            self.place(v).same_frame(self),
            self.place(v).is_leaf() == self.is_leaf(),
        decreases self.budget(), 1nat, 0nat,
    {
        if !self.is_leaf() && self.values.len() >= self.threshold {
            self.lemma_first_child_containing(v.rect());
            match self.first_child_containing(v.rect()) {
                Some(i) => {
                    self.children[i].lemma_add_wf(v);
                },
                None => {},
            }
        }
    }

    /// `distribute` keeps a well-formed internal node well-formed and
    /// internal.
    pub proof fn lemma_distribute_wf(self, vals: Seq<T>)
        requires
            self.wf(),
            !self.is_leaf(),
            forall|k: int| 0 <= k < vals.len() ==> self.rect.contains_region(&(#[trigger] vals[k]).rect()),
        ensures
            self.distribute(vals).wf(),
            self.distribute(vals).same_frame(self),
            !self.distribute(vals).is_leaf(),
        decreases self.budget(), 1nat, vals.len(),
    {
        if vals.len() > 0 {
            let v = vals[0];
            self.lemma_first_child_containing(v.rect());
            let next = match self.first_child_containing(v.rect()) {
                Some(i) => {
                    self.children[i].lemma_add_wf(v);
                    self.with_child(i, self.children[i].add(v))
                },
                None => self.store(v),
            };
            next.lemma_distribute_wf(vals.drop_first());
        }
    }

    /// The subtrees of `nodes` hold no object exactly when none of them does.
    pub proof fn lemma_values_of_empty(nodes: Seq<Self>)
        ensures
            Self::values_of(nodes).len() == 0 <==> (forall|i: int|
                0 <= i < nodes.len() ==> (#[trigger] nodes[i]).is_empty()),
        decreases nodes.len(),
    {
        if nodes.len() > 0 {
            Self::lemma_values_of_empty(nodes.drop_last());
            if Self::values_of(nodes).len() == 0 {
                assert forall|i: int| 0 <= i < nodes.len() implies (#[trigger] nodes[i]).is_empty() by {
                    if i < nodes.len() - 1 {
                        assert(nodes.drop_last()[i] == nodes[i]);
                    }
                }
            }
        }
    }

    /// A subtree holds no object exactly when its root stores none and no
    /// subtree below it holds one.
    pub proof fn lemma_is_empty(self)
        ensures
            self.is_empty() <==> (self.values.len() == 0 && forall|i: int|
                0 <= i < self.children.len() ==> (#[trigger] self.children[i]).is_empty()),
    {
        Self::lemma_values_of_empty(self.children);
    }

    /// Pruning leaves a well-formed node well-formed, and removes no object.
    pub proof fn lemma_pruned_wf(self)
        requires
            self.wf(),
        ensures
            self.pruned().wf(),
            self.pruned().same_frame(self),
            self.pruned().values == self.values,
            self.pruned().all_values() == self.all_values(),
    {
        if self.prunable() {
            Self::lemma_values_of_empty(self.children);
        }
    }

    /// Deleting from a well-formed node leaves it well-formed, over the same
    /// region, at the same depth, and without an object of that identity
    /// among those it stores itself.
    pub proof fn lemma_delete_wf(self, v: T)
        requires
            self.wf(),
        ensures
            self.delete(v).wf(),
            self.delete(v).same_frame(self),
            !self.delete(v).has_identity(v.identity()),
    {
    }

    /// The query path of `rect` names a node of the subtree. That node's
    /// region holds `rect` if this node's does, and none of its children's
    /// regions holds `rect`.
    pub proof fn lemma_query_path(self, rect: Region)
        ensures
            self.has_path(self.query_path(rect)),
            self.rect.contains_region(&rect) ==> self.node_at(
                self.query_path(rect),
            ).rect.contains_region(&rect),
            self.node_at(self.query_path(rect)).first_child_containing(rect).is_none(),
        decreases self,
    {
        self.lemma_first_child_containing(rect);
        match self.first_child_containing(rect) {
            Some(i) => {
                let rest = self.children[i].query_path(rect);
                self.children[i].lemma_query_path(rect);
                assert(self.query_path(rect).drop_first() =~= rest);
            },
            None => {},
        }
    }

    /// A path that `find_path_in` gives starts with the index of a node and
    /// goes on as a path that `find_path` gives for that node; no node
    /// before it holds the identity.
    pub proof fn lemma_find_path_in(nodes: Seq<Self>, id: int, from: int)
        requires
            0 <= from,
        ensures
            match Self::find_path_in(nodes, id, from) {
                Some(p) => {
                    &&& p.len() > 0
                    &&& from <= p[0] < nodes.len()
                    &&& nodes[p[0]].find_path(id) == Some(p.drop_first())
                    &&& forall|j: int| from <= j < p[0] ==> (#[trigger] nodes[j]).find_path(id).is_none()
                },
                None => forall|j: int|
                    from <= j < nodes.len() ==> (#[trigger] nodes[j]).find_path(id).is_none(),
            },
        decreases nodes.len() - from,
    {
        if from < nodes.len() {
            match nodes[from].find_path(id) {
                Some(p) => {},
                None => {
                    Self::lemma_find_path_in(nodes, id, from + 1);
                },
            }
        }
    }

    /// The path that `find_path` gives names a node of the subtree, and that
    /// node stores an object with the identity.
    pub proof fn lemma_find_path(self, id: int)
        ensures
            match self.find_path(id) {
                Some(p) => self.has_path(p) && self.node_at(p).has_identity(id),
                None => !self.has_identity(id),
            },
        decreases self,
    {
        if !self.has_identity(id) {
            Self::lemma_find_path_in(self.children, id, 0);
            match Self::find_path_in(self.children, id, 0) {
                Some(p) => {
                    self.children[p[0]].lemma_find_path(id);
                },
                None => {},
            }
        }
    }

    /// Replacing the node at a path by a well-formed node with the same
    /// frame leaves a well-formed tree well-formed.
    pub proof fn lemma_with_node_at_wf(self, path: Seq<int>, node: Self)
        requires
            self.wf(),
            self.has_path(path),
            node.wf(),
            node.same_frame(self.node_at(path)),
        ensures
            self.with_node_at(path, node).wf(),
            self.with_node_at(path, node).same_frame(self),
        decreases path.len(),
    {
        if path.len() > 0 {
            let i = path[0];
            self.children[i].lemma_with_node_at_wf(path.drop_first(), node);
        }
    }

    /// Every node of a well-formed tree is well-formed.
    pub proof fn lemma_node_at_wf(self, path: Seq<int>)
        requires
            self.wf(),
            self.has_path(path),
        ensures
            self.node_at(path).wf(),
            self.node_at(path).max_depth == self.max_depth,
            self.node_at(path).threshold == self.threshold,
            self.node_at(path).depth == self.depth + path.len(),
            self.rect.contains_region(&self.node_at(path).rect),
        decreases path.len(),
    {
        if path.len() > 0 {
            let i = path[0];
            self.children[i].lemma_node_at_wf(path.drop_first());
            lemma_quadrants_partition(self.rect);
        }
    }

    /// The objects of the first `i + 1` subtrees are those of the first `i`,
    /// followed by those of subtree `i`.
    pub proof fn lemma_values_of_step(nodes: Seq<Self>, i: int)
        requires
            0 <= i < nodes.len(),
        ensures
            Self::values_of(nodes.take(i + 1)) == Self::values_of(nodes.take(i))
                + nodes[i].all_values(),
            Self::values_of(nodes.take(0)) == Seq::<T>::empty(),
            Self::values_of(nodes.take(nodes.len() as int)) == Self::values_of(nodes),
    {
        assert(nodes.take(i + 1).drop_last() =~= nodes.take(i));
        assert(nodes.take(nodes.len() as int) =~= nodes);
    }

    /// The nodes of the first `i + 1` subtrees are those of the first `i`,
    /// followed by those of subtree `i`.
    pub proof fn lemma_nodes_of_step(nodes: Seq<Self>, i: int)
        requires
            0 <= i < nodes.len(),
        ensures
            Self::nodes_of(nodes.take(i + 1)) == Self::nodes_of(nodes.take(i))
                + nodes[i].all_nodes(),
            Self::nodes_of(nodes.take(0)) == Seq::<Self>::empty(),
            Self::nodes_of(nodes.take(nodes.len() as int)) == Self::nodes_of(nodes),
    {
        assert(nodes.take(i + 1).drop_last() =~= nodes.take(i));
        assert(nodes.take(nodes.len() as int) =~= nodes);
    }

    /// Adding at the root leaves a well-formed tree well-formed.
    pub proof fn lemma_insert_wf(self, v: T)
        requires
            self.wf(),
        ensures
            self.insert(v).wf(),
            self.insert(v).same_frame(self),
    {
        if self.rect.contains_region(&v.rect()) {
            self.lemma_add_wf(v);
        }
    }

    /// Deleting from the tree leaves a well-formed tree well-formed.
    pub proof fn lemma_remove_wf(self, v: T)
        requires
            self.wf(),
        ensures
            self.remove(v).wf(),
            self.remove(v).same_frame(self),
    {
        self.lemma_find_path(v.identity());
        match self.find_path(v.identity()) {
            Some(p) => {
                self.lemma_node_at_wf(p);
                self.lemma_with_node_at_wf(p, self.node_at(p).delete(v));
            },
            None => {},
        }
    }

    /// Storing one object anew leaves a well-formed tree well-formed.
    pub proof fn lemma_refresh_wf(self, v: T)
        requires
            self.wf(),
        ensures
            self.refresh(v).wf(),
            self.refresh(v).same_frame(self),
    {
        self.lemma_remove_wf(v);
        self.remove(v).lemma_insert_wf(v);
    }
}

} // verus!
