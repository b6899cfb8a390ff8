//! The nodes of the quadtree.

use crate::node_model::NodeModel;
use crate::node_model::first_containing;
use crate::node_model::path_ints;
use crate::quadtree_value::QuadtreeValue;
use crate::region::Region;
use vstd::prelude::*;

verus! {

/// The depth at and beyond which a node is never split, unless the tree is
/// built with another limit.
pub const MAX_DEPTH: usize = 8;

/// The number of objects from which a leaf is split, unless the tree is built
/// with another limit.
pub const THRESHOLD: usize = 10;

/// One region of the tree, the objects stored at it, and the four nodes
/// below it, if it has been split.
pub struct QuadtreeNode<T> {
    pub rect: Region,
    pub depth: usize,
    pub children: Vec<QuadtreeNode<T>>,
    pub values: Vec<T>,
    pub max_depth: usize,
    pub threshold: usize,
}

/// The models of `nodes`, in order.
pub open spec fn models_of<T>(nodes: Seq<QuadtreeNode<T>>) -> Seq<NodeModel<T>>
    decreases nodes,
{
    if nodes.len() == 0 {
        Seq::empty()
    } else {
        models_of(nodes.drop_last()).push(nodes.last()@)
    }
}

impl<T> View for QuadtreeNode<T> {
    type V = NodeModel<T>;

    open spec fn view(&self) -> NodeModel<T>
        decreases self,
    {
        NodeModel {
            rect: self.rect,
            depth: self.depth as nat,
            max_depth: self.max_depth as nat,
            threshold: self.threshold as nat,
            values: self.values@,
            children: models_of(self.children@),
        }
    }
}

/// `models_of` takes the model of each node.
pub proof fn lemma_models_of<T>(nodes: Seq<QuadtreeNode<T>>)
    ensures
        models_of(nodes).len() == nodes.len(),
        forall|i: int| 0 <= i < nodes.len() ==> #[trigger] models_of(nodes)[i] == nodes[i]@,
    decreases nodes.len(),
{
    if nodes.len() > 0 {
        lemma_models_of(nodes.drop_last());
        assert(models_of(nodes) == models_of(nodes.drop_last()).push(nodes.last()@));
    }
}

/// Replacing a node replaces its model.
pub broadcast proof fn lemma_models_of_update<T>(
    nodes: Seq<QuadtreeNode<T>>,
    i: int,
    node: QuadtreeNode<T>,
)
    requires
        0 <= i < nodes.len(),
    ensures
        #[trigger] models_of(nodes.update(i, node)) == models_of(nodes).update(i, node@),
{
    lemma_models_of(nodes);
    lemma_models_of(nodes.update(i, node));
}

/// The objects that a sequence of references refers to.
pub open spec fn referents<T>(refs: Seq<&T>) -> Seq<T> {
    refs.map_values(|r: &T| *r)
}

/// The models of the nodes that a sequence of references refers to.
pub open spec fn models_of_refs<T>(refs: Seq<&QuadtreeNode<T>>) -> Seq<NodeModel<T>> {
    refs.map_values(|r: &QuadtreeNode<T>| r@)
}

/// What `agg_func` says of one node.
pub open spec fn statistic_of<T, AggFn: Fn(&QuadtreeNode<T>) -> u64>(
    agg_func: &AggFn,
    node: &QuadtreeNode<T>,
) -> u64 {
    choose|value: u64| agg_func.ensures((node,), value)
}

/// What `agg_func` says of a node and of every node below it, added up.
pub open spec fn total_statistic<T, AggFn: Fn(&QuadtreeNode<T>) -> u64>(
    agg_func: &AggFn,
    node: &QuadtreeNode<T>,
) -> int
    decreases node,
{
    statistic_of(agg_func, node) + total_statistic_of(agg_func, node.children@)
}

/// What `agg_func` says of the nodes of the subtrees of `nodes`, added up.
pub open spec fn total_statistic_of<T, AggFn: Fn(&QuadtreeNode<T>) -> u64>(
    agg_func: &AggFn,
    nodes: Seq<QuadtreeNode<T>>,
) -> int
    decreases nodes,
{
    if nodes.len() == 0 {
        0
    } else {
        total_statistic_of(agg_func, nodes.drop_last()) + total_statistic(agg_func, &nodes.last())
    }
}

/// A total is not negative.
pub proof fn lemma_total_statistic<T, AggFn: Fn(&QuadtreeNode<T>) -> u64>(
    agg_func: &AggFn,
    node: &QuadtreeNode<T>,
)
    ensures
        total_statistic(agg_func, node) >= 0,
    decreases node, 1nat,
{
    lemma_total_statistic_of(agg_func, node.children@);
}

/// A total over several subtrees is not negative, and grows with each
/// subtree.
pub proof fn lemma_total_statistic_of<T, AggFn: Fn(&QuadtreeNode<T>) -> u64>(
    agg_func: &AggFn,
    nodes: Seq<QuadtreeNode<T>>,
)
    ensures
        total_statistic_of(agg_func, nodes) >= 0,
        forall|i: int|
            0 <= i <= nodes.len() ==> 0 <= #[trigger] total_statistic_of(agg_func, nodes.take(i))
                <= total_statistic_of(agg_func, nodes),
        forall|i: int|
            0 <= i < nodes.len() ==> #[trigger] total_statistic_of(agg_func, nodes.take(i + 1))
                == total_statistic_of(agg_func, nodes.take(i)) + total_statistic(
                agg_func,
                &nodes[i],
            ),
    decreases nodes, 0nat,
{
    if nodes.len() > 0 {
        let front = nodes.drop_last();
        lemma_total_statistic_of(agg_func, front);
        lemma_total_statistic(agg_func, &nodes.last());
        assert forall|i: int| 0 <= i <= nodes.len() implies 0 <= #[trigger] total_statistic_of(
            agg_func,
            nodes.take(i),
        ) <= total_statistic_of(agg_func, nodes) by {
            if i == nodes.len() {
                assert(nodes.take(i) =~= nodes);
            } else {
                assert(nodes.take(i) =~= front.take(i));
            }
        }
        assert forall|i: int| 0 <= i < nodes.len() implies #[trigger] total_statistic_of(
            agg_func,
            nodes.take(i + 1),
        ) == total_statistic_of(agg_func, nodes.take(i)) + total_statistic(
            agg_func,
            &nodes[i],
        ) by {
            assert(nodes.take(i + 1).drop_last() =~= nodes.take(i));
        }
    }
}

impl<T> QuadtreeNode<T> {
    /// The model of a node, field by field.
    pub broadcast proof fn lemma_view(&self)
        ensures
            (#[trigger] self@).rect == self.rect,
            self@.depth == self.depth,
            self@.max_depth == self.max_depth,
            self@.threshold == self.threshold,
            self@.values == self.values@,
            self@.children == models_of(self.children@),
            self@.children.len() == self.children.len(),
            forall|i: int|
                0 <= i < self.children.len() ==> #[trigger] self@.children[i] == self.children[i]@,
    {
        lemma_models_of(self.children@);
    }
}

impl<T: QuadtreeValue> QuadtreeNode<T> {
    /// An empty leaf over `rect` at `depth`, with the given limits.
    pub fn with_limits(rect: Region, depth: usize, threshold: usize, max_depth: usize) -> (node:
        Self)
        ensures
            node@ == (NodeModel::<T> {
                rect,
                depth: depth as nat,
                max_depth: max_depth as nat,
                threshold: threshold as nat,
                values: Seq::empty(),
                children: Seq::empty(),
            }),
            rect.wf() ==> node@.wf(),
    {
        QuadtreeNode {
            rect,
            depth,
            children: Vec::new(),
            values: Vec::new(),
            max_depth,
            threshold,
        }
    }

    /// An empty leaf over `rect` at `depth`, with the limits [`THRESHOLD`]
    /// and [`MAX_DEPTH`].
    pub fn empty(rect: Region, depth: usize) -> (node: Self)
        ensures
            node@ == (NodeModel::<T> {
                rect,
                depth: depth as nat,
                max_depth: MAX_DEPTH as nat,
                threshold: THRESHOLD as nat,
                values: Seq::empty(),
                children: Seq::empty(),
            }),
            rect.wf() ==> node@.wf(),
    {
        Self::with_limits(rect, depth, THRESHOLD, MAX_DEPTH)
    }

    pub fn is_leaf(&self) -> (b: bool)
        ensures
            b == self@.is_leaf(),
    {
        broadcast use QuadtreeNode::lemma_view;

        self.children.len() == 0
    }

    /// Whether `rect` lies entirely within the node's region.
    pub fn contains_rect(&self, rect: &Region) -> (b: bool)
        ensures
            b == self@.rect.contains_region(rect),
    {
        self.rect.contains_region(rect)
    }

    /// The position among the objects stored at this node itself of the one
    /// with the identity of `value`.
    pub fn position_of(&self, value: &T) -> (r: Option<usize>)
        ensures
            r.is_some() == self@.has_identity(value.identity()),
            match r {
                Some(i) => i < self@.values.len() && self@.values[i as int].identity()
                    == value.identity() && forall|j: int|
                    0 <= j < i ==> (#[trigger] self@.values[j]).identity() != value.identity(),
                None => true,
            },
    {
        let mut i: usize = 0;
        while i < self.values.len()
            invariant
                i <= self.values.len(),
                forall|j: int|
                    0 <= j < i ==> (#[trigger] self.values@[j]).identity() != value.identity(),
            decreases self.values.len() - i,
        {
            proof {
                self.values@[i as int].lemma_eq_is_identity(value);
            }
            if self.values[i] == *value {
                assert(self@.values[i as int].identity() == value.identity());
                return Some(i);
            }
            i += 1;
        }
        None
    }

    /// Whether an object with the identity of `value` is stored at this node
    /// itself.
    pub fn contains_value(&self, value: &T) -> (b: bool)
        ensures
            b == self@.has_identity(value.identity()),
    {
        self.position_of(value).is_some()
    }

    /// The index of the first child whose region holds `rect`.
    pub fn child_index_containing(&self, rect: &Region) -> (r: Option<usize>)
        ensures
            match r {
                Some(i) => self@.first_child_containing(*rect) == Some(i as int) && i
                    < self@.children.len() && self@.children[i as int].rect.contains_region(rect),
                None => self@.first_child_containing(*rect).is_none(),
            },
    {
        broadcast use QuadtreeNode::lemma_view;

        let mut i: usize = 0;
        while i < self.children.len()
            invariant
                i <= self.children.len(),
                first_containing(self@.children, *rect, 0) == first_containing(
                    self@.children,
                    *rect,
                    i as int,
                ),
            decreases self.children.len() - i,
        {
            broadcast use QuadtreeNode::lemma_view;

            if self.children[i].contains_rect(rect) {
                return Some(i);
            }
            i += 1;
        }
        None
    }

    /// Stores `value` at this node itself, unless an object with the same
    /// identity is stored here already.
    fn store(&mut self, value: T)
        ensures
            final(self)@ == old(self)@.store(value),
    {
        if !self.contains_value(&value) {
            self.values.push(value);
        }
    }

    /// Gives a leaf four empty children, one over each quadrant.
    fn create_children(&mut self)
        requires
            old(self)@.rect.wf(),
            old(self)@.depth < old(self)@.max_depth,
        ensures
            final(self)@ == (if old(self)@.is_leaf() {
                old(self)@.with_contents(old(self)@.values, old(self)@.fresh_children())
            } else {
                old(self)@
            }),
    {
        broadcast use QuadtreeNode::lemma_view;

        if self.children.len() > 0 {
            return ;
        }
        let quads = self.rect.quadrants();
        let mut i: usize = 0;
        while i < 4
            invariant
                i <= 4,
                self.children.len() == i,
                self.rect == old(self).rect,
                self.depth == old(self).depth,
                self.max_depth == old(self).max_depth,
                self.threshold == old(self).threshold,
                self.values == old(self).values,
                self.depth < self.max_depth,
                quads@ == self.rect.spec_quadrants(),
                forall|k: int|
                    0 <= k < i ==> (#[trigger] self.children[k])@ == old(self)@.fresh_child(k),
            decreases 4 - i,
        {
            let child = QuadtreeNode::with_limits(
                quads[i],
                self.depth + 1,
                self.threshold,
                self.max_depth,
            );
            self.children.push(child);
            i += 1;
        }
        assert(self@.children =~= old(self)@.fresh_children());
    }

    /// Hands the objects stored at an internal node down: each goes to the
    /// first child whose region holds it, and stays here if there is none.
    fn distribute_values(&mut self)
        requires
            old(self)@.wf(),
        ensures
            final(self)@ == (if old(self)@.is_leaf() {
                old(self)@
            } else {
                old(self)@.with_contents(Seq::empty(), old(self)@.children).distribute(
                    old(self)@.values,
                )
            }),
            final(self)@.wf(),
            final(self)@.same_frame(old(self)@),
        decreases old(self)@.budget(), 1nat,
    {
        broadcast use QuadtreeNode::lemma_view;

        if self.children.len() == 0 {
            return ;
        }
        let mut values: Vec<T> = Vec::new();
        core::mem::swap(&mut self.values, &mut values);
        let ghost start = self@;
        let ghost vals = values@;
        proof {
            assert(vals.skip(0) =~= vals);
        }
        for value in it: values
            invariant
                it.seq() == vals,
                self@.wf(),
                !self@.is_leaf(),
                self@.same_frame(start),
                start == old(self)@.with_contents(Seq::empty(), old(self)@.children),
                forall|k: int|
                    0 <= k < vals.len() ==> start.rect.contains_region(&(#[trigger] vals[k]).rect()),
                self@.distribute(vals.skip(it.index())) == start.distribute(vals),
        {
            broadcast use QuadtreeNode::lemma_view;

            let ghost before = self@;
            let ghost rest = vals.skip(it.index());
            proof {
                assert(rest.drop_first() =~= vals.skip(it.index() + 1));
            }
            match self.child_index_containing(value.get_rect()) {
                Some(i) => {
                    self.children[i].add(value);
                    assert(self@.children =~= before.children.update(
                        i as int,
                        before.children[i as int].add(value),
                    ));
                },
                None => {
                    self.store(value);
                },
            }
        }
    }

    /// Adds `value` to this node or to a node below it.
    ///
    /// A leaf keeps the object, unless it is full and above the depth limit:
    /// then it is split first, and hands each of its objects to the first
    /// child whose region holds it. An internal node keeps the object while
    /// it holds fewer than `threshold` objects itself; after that it hands
    /// the object to the first child whose region holds it, and keeps it if
    /// there is none.
    ///
    /// A leaf at the depth limit takes every object, however many it holds
    /// already.
    ///
    /// The caller has checked that `value` lies within the node's region.
    pub fn add(&mut self, value: T)
        requires
            old(self)@.wf(),
            old(self)@.rect.contains_region(&value.rect()),
        ensures
            final(self)@ == old(self)@.add(value),
            final(self)@.wf(),
            final(self)@.same_frame(old(self)@),
        decreases old(self)@.budget(), 2nat,
    {
        broadcast use QuadtreeNode::lemma_view;

        proof {
            old(self)@.lemma_add_wf(value);
        }
        if self.children.len() == 0 && self.depth < self.max_depth && self.values.len()
            >= self.threshold {
            proof {
                old(self)@.lemma_fresh_children_wf();
            }
            self.create_children();
            self.distribute_values();
        }
        let ghost base = self@;
        if self.children.len() == 0 || self.values.len() < self.threshold {
            self.store(value);
        } else {
            match self.child_index_containing(value.get_rect()) {
                Some(i) => {
                    self.children[i].add(value);
                    assert(self@.children =~= base.children.update(
                        i as int,
                        base.children[i as int].add(value),
                    ));
                },
                None => {
                    self.store(value);
                },
            }
        }
    }

    /// Whether no object is stored at this node or below it.
    pub fn is_empty(&self) -> (b: bool)
        ensures
            b == self@.is_empty(),
        decreases self, 1nat,
    {
        proof {
            self@.lemma_is_empty();
        }
        if self.values.len() > 0 {
            return false;
        }
        self.children_are_empty()
    }

    /// Whether no object is stored below this node.
    fn children_are_empty(&self) -> (b: bool)
        ensures
            b == (forall|i: int|
                0 <= i < self@.children.len() ==> (#[trigger] self@.children[i]).is_empty()),
        decreases self, 0nat,
    {
        broadcast use QuadtreeNode::lemma_view;

        let mut i: usize = 0;
        while i < self.children.len()
            invariant
                i <= self.children.len(),
                forall|j: int| 0 <= j < i ==> (#[trigger] self@.children[j]).is_empty(),
            decreases self.children.len() - i,
        {
            broadcast use QuadtreeNode::lemma_view;

            if !self.children[i].is_empty() {
                assert(!self@.children[i as int].is_empty());
                return false;
            }
            i += 1;
        }
        true
    }

    /// Removes from this node itself the object with the identity of
    /// `value`, and returns it.
    ///
    /// Before that, an internal node whose four subtrees hold no object
    /// gives up its children and is a leaf again. Nodes further up or down
    /// are not looked at.
    pub fn delete(&mut self, value: &T) -> (removed: Option<T>)
        requires
            old(self)@.wf(),
        ensures
            final(self)@ == old(self)@.delete(*value),
            removed == old(self)@.stored(*value),
            final(self)@.wf(),
            final(self)@.same_frame(old(self)@),
    {
        proof {
            old(self)@.lemma_delete_wf(*value);
        }
        if !self.is_leaf() {
            if self.children_are_empty() {
                self.children.clear();
            }
        }
        match self.position_of(value) {
            Some(i) => Some(self.values.remove(i)),
            None => None,
        }
    }

    /// The first child whose region holds `rect`, to work on.
    pub fn get_child_containing_rect_mut(&mut self, rect: &Region) -> (r: Option<
        &mut QuadtreeNode<T>,
    >)
        ensures
            match old(self)@.first_child_containing(*rect) {
                Some(i) => r.is_some() && r.unwrap()@ == old(self)@.children[i] && final(self)@
                    == old(self)@.with_child(i, final(r.unwrap())@),
                None => r.is_none() && final(self)@ == old(self)@,
            },
    {
        broadcast use QuadtreeNode::lemma_view;
        broadcast use lemma_models_of_update;

        match self.child_index_containing(rect) {
            Some(i) => Some(&mut self.children[i]),
            None => None,
        }
    }

    /// The smallest node whose region holds `rect`: this node if none of its
    /// children holds `rect`, else what the first child that holds it
    /// answers. `None` if this node's region does not hold `rect`.
    pub fn query_rect(&self, rect: &Region) -> (r: Option<&QuadtreeNode<T>>)
        ensures
            r.is_some() == self@.rect.contains_region(rect),
            r.is_some() ==> r.unwrap()@ == self@.node_at(self@.query_path(*rect)),
        decreases self,
    {
        broadcast use QuadtreeNode::lemma_view;

        if !self.contains_rect(rect) {
            return None;
        }
        match self.child_index_containing(rect) {
            Some(i) => {
                proof {
                    assert(self@.query_path(*rect).drop_first() =~= self@.children[i as int].query_path(
                        *rect,
                    ));
                }
                self.children[i].query_rect(rect)
            },
            None => Some(self),
        }
    }

    /// As [`QuadtreeNode::query_rect`], but the node is handed out to be
    /// changed.
    pub fn query_rect_mut(&mut self, rect: &Region) -> (r: Option<&mut QuadtreeNode<T>>)
        ensures
            r.is_some() == old(self)@.rect.contains_region(rect),
            match r {
                Some(node) => {
                    &&& node@ == old(self)@.node_at(old(self)@.query_path(*rect))
                    &&& final(self)@ == old(self)@.with_node_at(
                        old(self)@.query_path(*rect),
                        final(node)@,
                    )
                },
                None => final(self)@ == old(self)@,
            },
        decreases *old(self),
    {
        broadcast use QuadtreeNode::lemma_view;
        broadcast use lemma_models_of_update;

        if !self.contains_rect(rect) {
            return None;
        }
        match self.child_index_containing(rect) {
            Some(i) => {
                proof {
                    assert(old(self)@.query_path(*rect).drop_first() =~= old(
                        self,
                    )@.children[i as int].query_path(*rect));
                }
                self.children[i].query_rect_mut(rect)
            },
            None => Some(self),
        }
    }

    /// Looks for the first node, parents before children and children in
    /// order, that itself stores an object with the identity of `value`.
    /// If there is one, the path to it is appended to `path`.
    fn find_path_into(&self, value: &T, path: &mut Vec<usize>) -> (found: bool)
        ensures
            found == self@.find_path(value.identity()).is_some(),
            found ==> path_ints(final(path)@) == path_ints(old(path)@) + self@.find_path(
                value.identity(),
            ).unwrap(),
            !found ==> final(path)@ == old(path)@,
        decreases self,
    {
        broadcast use QuadtreeNode::lemma_view;

        let ghost id = value.identity();
        if self.contains_value(value) {
            return true;
        }
        let mut i: usize = 0;
        while i < self.children.len()
            invariant
                i <= self.children.len(),
                path@ == old(path)@,
                id == value.identity(),
                !self@.has_identity(id),
                NodeModel::find_path_in(self@.children, id, 0) == NodeModel::find_path_in(
                    self@.children,
                    id,
                    i as int,
                ),
            decreases self.children.len() - i,
        {
            broadcast use QuadtreeNode::lemma_view;

            path.push(i);
            if self.children[i].find_path_into(value, path) {
                return true;
            }
            path.pop();
            i += 1;
        }
        false
    }

    /// The path, as child indices from this node down, to the first node,
    /// parents before children and children in order, that itself stores an
    /// object with the identity of `value`.
    pub fn find_value_path(&self, value: &T) -> (r: Option<Vec<usize>>)
        ensures
            match self@.find_path(value.identity()) {
                Some(p) => r.is_some() && path_ints(r.unwrap()@) == p,
                None => r.is_none(),
            },
    {
        let mut path: Vec<usize> = Vec::new();
        if self.find_path_into(value, &mut path) {
            Some(path)
        } else {
            None
        }
    }

    /// The node that `path` leads to from entry `from` on, to work on.
    fn node_at_mut(&mut self, path: &Vec<usize>, from: usize) -> (r: &mut QuadtreeNode<T>)
        requires
            from <= path.len(),
            old(self)@.has_path(path_ints(path@).skip(from as int)),
        ensures
            r@ == old(self)@.node_at(path_ints(path@).skip(from as int)),
            final(self)@ == old(self)@.with_node_at(
                path_ints(path@).skip(from as int),
                final(r)@,
            ),
        decreases path.len() - from,
    {
        broadcast use QuadtreeNode::lemma_view;
        broadcast use lemma_models_of_update;

        let ghost rest = path_ints(path@).skip(from as int);
        if from == path.len() {
            self
        } else {
            let i = path[from];
            proof {
                assert(rest.drop_first() =~= path_ints(path@).skip(from + 1));
            }
            self.children[i].node_at_mut(path, from + 1)
        }
    }

    /// The first node, parents before children and children in order, that
    /// itself stores an object with the identity of `value`, to work on.
    /// `None` if no node of the subtree stores one.
    pub fn find_value_mut(&mut self, value: &T) -> (r: Option<&mut QuadtreeNode<T>>)
        ensures
            match old(self)@.find_path(value.identity()) {
                Some(p) => {
                    &&& r.is_some()
                    &&& r.unwrap()@ == old(self)@.node_at(p)
                    &&& final(self)@ == old(self)@.with_node_at(p, final(r.unwrap())@)
                },
                None => r.is_none() && final(self)@ == old(self)@,
            },
    {
        match self.find_value_path(value) {
            Some(path) => {
                proof {
                    old(self)@.lemma_find_path(value.identity());
                    assert(path_ints(path@).skip(0) =~= path_ints(path@));
                }
                Some(self.node_at_mut(&path, 0))
            },
            None => None,
        }
    }

    /// Appends to `out` this node and every node below it, parents before
    /// children.
    fn collect_nodes<'a>(&'a self, out: &mut Vec<&'a QuadtreeNode<T>>)
        ensures
            models_of_refs(final(out)@) == models_of_refs(old(out)@) + self@.all_nodes(),
        decreases self, 1nat,
    {
        out.push(self);
        self.collect_descendant_nodes(out);
    }

    /// Appends to `out` every node below this node, parents before children.
    fn collect_descendant_nodes<'a>(&'a self, out: &mut Vec<&'a QuadtreeNode<T>>)
        ensures
            models_of_refs(final(out)@) == models_of_refs(old(out)@) + NodeModel::nodes_of(
                self@.children,
            ),
        decreases self, 0nat,
    {
        broadcast use QuadtreeNode::lemma_view;

        let ghost base = models_of_refs(out@);
        let mut i: usize = 0;
        while i < self.children.len()
            invariant
                i <= self.children.len(),
                base == models_of_refs(old(out)@),
                models_of_refs(out@) == base + NodeModel::nodes_of(self@.children.take(i as int)),
            decreases self.children.len() - i,
        {
            broadcast use QuadtreeNode::lemma_view;

            proof {
                NodeModel::lemma_nodes_of_step(self@.children, i as int);
            }
            self.children[i].collect_nodes(out);
            i += 1;
        }
        proof {
            assert(self@.children.take(self@.children.len() as int) =~= self@.children);
        }
    }

    /// Every node below this node, parents before children and children in
    /// order.
    pub fn get_all_descendant_nodes(&self) -> (nodes: Vec<&QuadtreeNode<T>>)
        ensures
            models_of_refs(nodes@) == NodeModel::nodes_of(self@.children),
    {
        let mut nodes: Vec<&QuadtreeNode<T>> = Vec::new();
        self.collect_descendant_nodes(&mut nodes);
        nodes
    }

    /// Appends to `out` every object stored at this node and below it.
    fn collect_values<'a>(&'a self, out: &mut Vec<&'a T>)
        ensures
            referents(final(out)@) == referents(old(out)@) + self@.all_values(),
        decreases self,
    {
        broadcast use QuadtreeNode::lemma_view;

        let ghost base = referents(out@);
        let mut k: usize = 0;
        while k < self.values.len()
            invariant
                k <= self.values.len(),
                base == referents(old(out)@),
                referents(out@) == base + self@.values.take(k as int),
            decreases self.values.len() - k,
        {
            let ghost before = out@;
            out.push(&self.values[k]);
            proof {
                assert(referents(out@) =~= referents(before).push(self@.values[k as int]));
            }
            k += 1;
        }
        let mut i: usize = 0;
        while i < self.children.len()
            invariant
                i <= self.children.len(),
                base == referents(old(out)@),
                referents(out@) == base + self@.values + NodeModel::values_of(
                    self@.children.take(i as int),
                ),
            decreases self.children.len() - i,
        {
            broadcast use QuadtreeNode::lemma_view;

            proof {
                NodeModel::lemma_values_of_step(self@.children, i as int);
            }
            self.children[i].collect_values(out);
            i += 1;
        }
        proof {
            assert(self@.children.take(self@.children.len() as int) =~= self@.children);
        }
    }

    /// Every object stored at this node and below it: first the node's own,
    /// in the order in which they arrived, then those of each child's
    /// subtree in turn. The list is made anew by every call.
    pub fn get_all_descendant_values(&self) -> (values: Vec<&T>)
        ensures
            referents(values@) == self@.all_values(),
    {
        let mut values: Vec<&T> = Vec::new();
        self.collect_values(&mut values);
        values
    }

    /// Adds up what `agg_func` says of this node and of every node below
    /// it. `None` if the sum does not fit.
    ///
    /// `agg_func` accepts every node, and says one thing of each.
    pub fn aggregate_statistic<AggFn: Fn(&QuadtreeNode<T>) -> u64>(
        &self,
        agg_func: &AggFn,
    ) -> (total: Option<u64>)
        requires
            forall|node: &QuadtreeNode<T>| agg_func.requires((node,)),
            forall|node: &QuadtreeNode<T>, a: u64, b: u64|
                agg_func.ensures((node,), a) && agg_func.ensures((node,), b) ==> a == b,
        ensures
            total == (if total_statistic(agg_func, self) <= u64::MAX {
                Some(total_statistic(agg_func, self) as u64)
            } else {
                None
            }),
        decreases self,
    {
        let mut agg_value: u64 = agg_func(self);
        proof {
            lemma_total_statistic_of(agg_func, self.children@);
        }
        let mut i: usize = 0;
        while i < self.children.len()
            invariant
                i <= self.children.len(),
                forall|node: &QuadtreeNode<T>| agg_func.requires((node,)),
                forall|node: &QuadtreeNode<T>, a: u64, b: u64|
                    agg_func.ensures((node,), a) && agg_func.ensures((node,), b) ==> a == b,
                agg_value == statistic_of(agg_func, self) + total_statistic_of(
                    agg_func,
                    self.children@.take(i as int),
                ),
            decreases self.children.len() - i,
        {
            proof {
                lemma_total_statistic_of(agg_func, self.children@);
                lemma_total_statistic(agg_func, &self.children@[i as int]);
                assert(total_statistic_of(agg_func, self.children@.take(i as int + 1))
                    <= total_statistic_of(agg_func, self.children@));
            }
            match self.children[i].aggregate_statistic(agg_func) {
                Some(part) => match agg_value.checked_add(part) {
                    Some(sum) => {
                        agg_value = sum;
                    },
                    None => {
                        return None;
                    },
                },
                None => {
                    return None;
                },
            }
            i += 1;
        }
        proof {
            assert(self.children@.take(self.children@.len() as int) =~= self.children@);
        }
        Some(agg_value)
    }

    /// Whether every object stored at this node itself lies within the
    /// node's region.
    fn values_are_within(&self) -> (b: bool)
        ensures
            b == self@.values_within(),
    {
        let mut k: usize = 0;
        while k < self.values.len()
            invariant
                k <= self.values.len(),
                forall|i: int|
                    0 <= i < k ==> self.rect.contains_region(&(#[trigger] self.values@[i]).rect()),
            decreases self.values.len() - k,
        {
            if !self.rect.contains_region(self.values[k].get_rect()) {
                assert(!self@.rect.contains_region(&self@.values[k as int].rect()));
                return false;
            }
            k += 1;
        }
        true
    }

    /// Whether the objects stored at this node itself have identities that
    /// differ from one another.
    fn values_are_distinct(&self) -> (b: bool)
        ensures
            b == self@.values_distinct(),
    {
        let mut j: usize = 0;
        while j < self.values.len()
            invariant
                j <= self.values.len(),
                forall|a: int, b: int|
                    #![trigger self.values@[a], self.values@[b]]
                    0 <= a < b < j ==> self.values@[a].identity() != self.values@[b].identity(),
            decreases self.values.len() - j,
        {
            let mut i: usize = 0;
            while i < j
                invariant
                    i <= j,
                    j < self.values.len(),
                    forall|a: int|
                        0 <= a < i ==> (#[trigger] self.values@[a]).identity()
                            != self.values@[j as int].identity(),
                decreases j - i,
            {
                proof {
                    self.values@[i as int].lemma_eq_is_identity(&self.values@[j as int]);
                }
                if self.values[i] == self.values[j] {
                    assert(self@.values[i as int].identity() == self@.values[j as int].identity());
                    return false;
                }
                i += 1;
            }
            j += 1;
        }
        true
    }

    /// Whether the node and every node below it are as the tree keeps them:
    /// the exec form of the invariant. It looks at every node, and compares
    /// the objects of each node with one another.
    pub fn is_well_formed(&self) -> (b: bool)
        ensures
            b == self@.wf(),
        decreases self,
    {
        broadcast use QuadtreeNode::lemma_view;

        if !self.rect.is_well_formed() || !self.values_are_within() || !self.values_are_distinct() {
            return false;
        }
        if self.children.len() == 0 {
            return true;
        }
        if self.children.len() != 4 || self.depth >= self.max_depth {
            return false;
        }
        let quads = self.rect.quadrants();
        let mut i: usize = 0;
        while i < 4
            invariant
                i <= 4,
                self.children.len() == 4,
                self.depth < self.max_depth,
                quads@ == self.rect.spec_quadrants(),
                forall|k: int|
                    0 <= k < i ==> self@.child_fits(k) && (#[trigger] self@.children[k]).wf(),
            decreases 4 - i,
        {
            broadcast use QuadtreeNode::lemma_view;

            let child = &self.children[i];
            let fits = child.rect == quads[i] && child.depth == self.depth + 1 && child.max_depth
                == self.max_depth && child.threshold == self.threshold;
            assert(fits == self@.child_fits(i as int));
            if !fits || !child.is_well_formed() {
                return false;
            }
            i += 1;
        }
        true
    }

    /// Whether some child's region holds `rect` entirely.
    pub fn children_contain_rect(&self, rect: &Region) -> (b: bool)
        ensures
            b == self@.first_child_containing(*rect).is_some(),
    {
        self.child_index_containing(rect).is_some()
    }
}

} // verus!
