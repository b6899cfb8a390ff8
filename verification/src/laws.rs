//! What holds of every well-formed tree, and of every operation on one.

use crate::contents::bag_has_identity;
use crate::contents::lemma_counted_twice;
use crate::node_model::first_containing;
use crate::node_model::NodeModel;
use crate::quadtree_value::QuadtreeValue;
use crate::region::lemma_quadrants_partition;
use crate::region::Point;
use vstd::prelude::*;

verus! {

impl<T: QuadtreeValue> NodeModel<T> {
    /// Splitting a full leaf gives a well-formed internal node over the same
    /// region that holds the same objects.
    pub proof fn lemma_split(self)
        requires
            self.wf(),
            self.must_split(),
        ensures
            self.split().wf(),
            self.split().same_frame(self),
            !self.split().is_leaf(),
            self.split().bag() == self.bag(),
            forall|v: T| #[trigger] self.add(v) == self.split().place(v),
    {
        let start = self.with_contents(Seq::empty(), self.fresh_children());
        self.lemma_fresh_children_wf();
        self.lemma_fresh_children_bag();
        assert forall|k: int| 0 <= k < self.values.len() implies !start.holds_identity(
            (#[trigger] self.values[k]).identity(),
        ) by {
            start.lemma_holds_identity(self.values[k].identity());
        }
        start.lemma_distribute_bag(self.values);
        start.lemma_distribute_wf(self.values);
    }

    /// `add` puts the object at the end of the landing path: the node there
    /// stores the identity of the object, and stores the object itself if
    /// the subtree did not hold its identity before.
    pub proof fn lemma_landing(self, v: T)
        requires
            self.wf(),
            self.rect.contains_region(&v.rect()),
        ensures
            self.add(v).has_path(self.landing_path(v)),
            self.add(v).node_at(self.landing_path(v)).has_identity(v.identity()),
            !self.holds_identity(v.identity()) ==> self.add(v).node_at(
                self.landing_path(v),
            ).values.contains(v),
        decreases self.budget(),
    {
        let id = v.identity();
        let base = if self.must_split() {
            self.split()
        } else {
            self
        };
        if self.must_split() {
            self.lemma_split();
        }
        base.lemma_holds_identity(id);
        self.lemma_holds_identity(id);
        base.lemma_holds_identity_parts(id);
        base.lemma_first_child_containing(v.rect());
        let stores = base.is_leaf() || base.values.len() < base.threshold
            || base.first_child_containing(v.rect()).is_none();
        if stores {
            let after = base.store(v);
            if !base.has_identity(id) {
                assert(after.values[base.values.len() as int] == v);
            }
        } else {
            let i = base.first_child_containing(v.rect()).unwrap();
            let child = base.children[i];
            child.lemma_landing(v);
            let path = self.landing_path(v);
            assert(path.drop_first() =~= child.landing_path(v));
        }
    }

    /// The query for an object's region, after the object has been added,
    /// passes through the node at which `add` put the object: the landing
    /// path is the beginning of the query path.
    pub proof fn lemma_landing_on_query_path(self, v: T)
        requires
            self.wf(),
            self.rect.contains_region(&v.rect()),
        ensures
            self.landing_path(v).len() <= self.add(v).query_path(v.rect()).len(),
            self.landing_path(v) == self.add(v).query_path(v.rect()).take(
                self.landing_path(v).len() as int,
            ),
        decreases self.budget(),
    {
        let base = if self.must_split() {
            self.split()
        } else {
            self
        };
        if self.must_split() {
            self.lemma_split();
        }
        base.lemma_first_child_containing(v.rect());
        let after = self.add(v);
        let stores = base.is_leaf() || base.values.len() < base.threshold
            || base.first_child_containing(v.rect()).is_none();
        if !stores {
            let i = base.first_child_containing(v.rect()).unwrap();
            let child = base.children[i];
            child.lemma_landing_on_query_path(v);
            // child `i` covers the same region as before, so the query descends
            // into it as the object did
            after.lemma_first_child_containing(v.rect());
            assert(after.children[i].rect == child.rect);
        }
    }
}

/// Containment: in a well-formed tree, every object lies within the region
/// of the node that stores it.
pub proof fn law_containment<T: QuadtreeValue>(tree: NodeModel<T>, path: Seq<int>, k: int)
    requires
        tree.wf(),
        tree.has_path(path),
        0 <= k < tree.node_at(path).values.len(),
    ensures
        tree.node_at(path).rect.contains_region(&tree.node_at(path).values[k].rect()),
        tree.rect.contains_region(&tree.node_at(path).values[k].rect()),
{
    tree.lemma_node_at_wf(path);
}

/// Well-formedness lasts: adding to, deleting from and refreshing a
/// well-formed tree give a well-formed tree over the same region.
pub proof fn law_well_formed_forever<T: QuadtreeValue>(tree: NodeModel<T>, v: T)
    requires
        tree.wf(),
    ensures
        tree.insert(v).wf() && tree.insert(v).same_frame(tree),
        tree.remove(v).wf() && tree.remove(v).same_frame(tree),
        tree.refresh(v).wf() && tree.refresh(v).same_frame(tree),
{
    tree.lemma_insert_wf(v);
    tree.lemma_remove_wf(v);
    tree.lemma_refresh_wf(v);
}

/// Partition: the four children of an internal node of a well-formed tree
/// cover the quadrants of the node's region. Each child's region lies within
/// the node's, every point of the node's region lies in a child's region, no
/// two children's regions share more than an edge, and the areas of the
/// children's regions add up to the area of the node's region.
pub proof fn law_partition<T: QuadtreeValue>(tree: NodeModel<T>, path: Seq<int>)
    requires
        tree.wf(),
        tree.has_path(path),
        !tree.node_at(path).is_leaf(),
    ensures
        tree.node_at(path).children.len() == 4,
        forall|i: int|
            0 <= i < 4 ==> (#[trigger] tree.node_at(path).children[i]).rect == tree.node_at(
                path,
            ).rect.spec_quadrants()[i] && tree.node_at(path).rect.contains_region(
                &tree.node_at(path).children[i].rect,
            ),
        forall|p: Point| #[trigger]
            tree.node_at(path).rect.contains_point(p) <==> (exists|i: int|
                0 <= i < 4 && (#[trigger] tree.node_at(path).children[i]).rect.contains_point(p)),
        forall|i: int, j: int|
            #![trigger tree.node_at(path).children[i], tree.node_at(path).children[j]]
            0 <= i < 4 && 0 <= j < 4 && i != j ==> !tree.node_at(path).children[i].rect.overlaps(
                &tree.node_at(path).children[j].rect,
            ),
        tree.node_at(path).children[0].rect.area() + tree.node_at(path).children[1].rect.area()
            + tree.node_at(path).children[2].rect.area() + tree.node_at(
            path,
        ).children[3].rect.area() == tree.node_at(path).rect.area(),
{
    tree.lemma_node_at_wf(path);
    let node = tree.node_at(path);
    let quads = node.rect.spec_quadrants();
    lemma_quadrants_partition(node.rect);
    assert forall|p: Point| #[trigger]
        node.rect.contains_point(p) <==> (exists|i: int|
            0 <= i < 4 && (#[trigger] node.children[i]).rect.contains_point(p)) by {
        if node.rect.contains_point(p) {
            let i = choose|i: int| 0 <= i < 4 && (#[trigger] quads[i]).contains_point(p);
            assert(node.children[i].rect.contains_point(p));
        }
    }
}

/// Depth bound: in a well-formed tree whose root is not below the depth
/// limit, no node is below it, and a node at the limit is a leaf.
pub proof fn law_depth_bound<T: QuadtreeValue>(tree: NodeModel<T>, path: Seq<int>)
    requires
        tree.wf(),
        tree.depth <= tree.max_depth,
        tree.has_path(path),
    ensures
        tree.node_at(path).depth == tree.depth + path.len(),
        tree.node_at(path).depth <= tree.max_depth,
        tree.node_at(path).depth == tree.max_depth ==> tree.node_at(path).is_leaf(),
    decreases path.len(),
{
    if path.len() > 0 {
        let i = path[0];
        law_depth_bound(tree.children[i], path.drop_first());
    }
}

/// A leaf at or below the depth limit is never split: whatever it holds, it
/// stores the object itself and stays a leaf.
pub proof fn law_no_split_at_depth_limit<T: QuadtreeValue>(node: NodeModel<T>, v: T)
    requires
        node.is_leaf(),
        node.depth >= node.max_depth,
    ensures
        node.add(v) == node.store(v),
        node.add(v).is_leaf(),
{
}

/// Round trip: after an object has been added, the smallest node whose
/// region holds the object's region holds the object's identity in its
/// subtree, given that `add` put the object at that node. If the tree did
/// not hold the identity before, the subtree holds the object itself.
///
/// An internal node with room keeps an object even where a child's region
/// holds it; the query for the object's region then descends past the node
/// that stores the object.
pub proof fn law_round_trip<T: QuadtreeValue>(tree: NodeModel<T>, v: T)
    requires
        tree.wf(),
        tree.rect.contains_region(&v.rect()),
        tree.landing_path(v) == tree.insert(v).query_path(v.rect()),
    ensures
        tree.insert(v).node_at(tree.insert(v).query_path(v.rect())).holds_identity(v.identity()),
        !tree.holds_identity(v.identity()) ==> tree.insert(v).node_at(
            tree.insert(v).query_path(v.rect()),
        ).all_values().contains(v),
{
    tree.lemma_landing(v);
    let node = tree.add(v).node_at(tree.landing_path(v));
    node.lemma_holds_identity_parts(v.identity());
    if node.values.contains(v) {
        let k = choose|k: int| 0 <= k < node.values.len() && node.values[k] == v;
        assert(node.all_values()[k] == v);
    }
}

/// The round trip fails wherever `add` did not put the object at the
/// smallest node whose region holds the object's region: if the tree did not
/// hold the object's identity before, then after the object has been added
/// that node does not hold the identity in its subtree.
pub proof fn law_round_trip_only_there<T: QuadtreeValue>(tree: NodeModel<T>, v: T)
    requires
        tree.wf(),
        tree.rect.contains_region(&v.rect()),
        !tree.holds_identity(v.identity()),
        tree.landing_path(v) != tree.insert(v).query_path(v.rect()),
    ensures
        !tree.insert(v).node_at(tree.insert(v).query_path(v.rect())).holds_identity(
            v.identity(),
        ),
{
    broadcast use vstd::seq_lib::group_to_multiset_ensures;

    let id = v.identity();
    let after = tree.add(v);
    let landing = tree.landing_path(v);
    let query = after.query_path(v.rect());
    tree.lemma_landing(v);
    tree.lemma_landing_on_query_path(v);
    tree.lemma_add_bag(v);
    after.lemma_query_path(v.rect());
    let rest = query.skip(landing.len() as int);
    assert(query =~= landing + rest);
    after.lemma_node_at_concat(landing, rest);
    let holder = after.node_at(landing);
    let found = after.node_at(query);
    found.lemma_holds_identity(id);
    if bag_has_identity(found.bag(), id) {
        let y = choose|y: T| #[trigger] found.bag().count(y) > 0 && y.identity() == id;
        after.lemma_bag_node_at(query, y);
        holder.lemma_bag_below(rest, v);
        after.lemma_bag_node_at(landing, v);
    }
}

/// Delete removes exactly one: from a tree that holds one object with the
/// identity, deleting takes that object out and leaves all others, after
/// which the tree does not hold the identity. Adding the object again, where
/// the tree's region holds it, puts it back: the tree lists it, and a search
/// for its identity finds a node.
pub proof fn law_delete_removes_one<T: QuadtreeValue>(tree: NodeModel<T>, v: T)
    requires
        tree.wf(),
        tree.holds_identity(v.identity()),
        forall|i: int, j: int|
            #![trigger tree.all_values()[i], tree.all_values()[j]]
            0 <= i < j < tree.all_values().len() && tree.all_values()[i].identity()
                == v.identity() ==> tree.all_values()[j].identity() != v.identity(),
    ensures
        tree.removed(v).is_some(),
        tree.removed(v).unwrap().identity() == v.identity(),
        tree.bag() == tree.remove(v).bag().insert(tree.removed(v).unwrap()),
        tree.remove(v).all_values().len() == tree.all_values().len() - 1,
        !tree.remove(v).holds_identity(v.identity()),
        tree.rect.contains_region(&v.rect()) ==> {
            &&& tree.remove(v).insert(v).bag() == tree.remove(v).bag().insert(v)
            &&& tree.remove(v).insert(v).all_values().contains(v)
            &&& tree.remove(v).insert(v).find_path(v.identity()).is_some()
        },
{
    broadcast use vstd::seq_lib::group_to_multiset_ensures;

    let id = v.identity();
    tree.lemma_remove_bag(v);
    tree.lemma_remove_wf(v);
    let x = tree.removed(v).unwrap();
    let after = tree.remove(v);
    let all = tree.all_values();
    assert(all.to_multiset().len() == after.all_values().to_multiset().len() + 1);
    after.lemma_holds_identity(id);
    if bag_has_identity(after.bag(), id) {
        let y = choose|y: T| #[trigger] after.bag().count(y) > 0 && y.identity() == id;
        // `x` and `y` both occur in the tree with the identity
        if y == x {
            assert(tree.bag().count(x) >= 2);
            lemma_counted_twice(all, x);
        } else {
            assert(tree.bag().count(y) > 0);
        }
    }
    if tree.rect.contains_region(&v.rect()) {
        after.lemma_insert_bag(v);
        let again = after.insert(v);
        assert(again.bag().count(v) > 0);
        again.lemma_find_path_holds(id);
    }
}

/// Subdivision keeps every object: adding to a full leaf above the depth
/// limit splits it, and the split node holds what the leaf held together
/// with the new object, given that the leaf did not store the new object's
/// identity.
pub proof fn law_subdivision_keeps_objects<T: QuadtreeValue>(leaf: NodeModel<T>, v: T)
    requires
        leaf.wf(),
        leaf.must_split(),
        leaf.rect.contains_region(&v.rect()),
        !leaf.has_identity(v.identity()),
    ensures
        !leaf.add(v).is_leaf(),
        leaf.add(v).children.len() == 4,
        leaf.add(v).bag() == leaf.values.to_multiset().insert(v),
        leaf.add(v).all_values().len() == leaf.values.len() + 1,
{
    broadcast use vstd::seq_lib::group_to_multiset_ensures;

    leaf.lemma_split();
    leaf.lemma_add_bag(v);
    leaf.lemma_add_wf(v);
    assert(leaf.add(v).bag().len() == leaf.values.to_multiset().len() + 1);
}

/// Subdivision redistributes: after a full leaf has been split, each object
/// that it stored is held by the subtree of the first quadrant whose region
/// holds the object's region, and is stored by the node itself if no
/// quadrant's region holds it.
pub proof fn law_subdivision_redistributes<T: QuadtreeValue>(leaf: NodeModel<T>, v: T, k: int)
    requires
        leaf.wf(),
        leaf.must_split(),
        leaf.rect.contains_region(&v.rect()),
        0 <= k < leaf.values.len(),
    ensures
        forall|i: int|
            0 <= i < 4 ==> (#[trigger] leaf.add(v).children[i]).rect
                == leaf.rect.spec_quadrants()[i],
        match first_containing(leaf.fresh_children(), leaf.values[k].rect(), 0) {
            Some(i) => 0 <= i < 4 && leaf.add(v).children[i].bag().count(leaf.values[k]) > 0,
            None => leaf.add(v).values.contains(leaf.values[k]),
        },
{
    let start = leaf.with_contents(Seq::empty(), leaf.fresh_children());
    leaf.lemma_fresh_children_wf();
    leaf.lemma_fresh_children_bag();
    assert forall|j: int| 0 <= j < leaf.values.len() implies !start.holds_identity(
        (#[trigger] leaf.values[j]).identity(),
    ) by {
        start.lemma_holds_identity(leaf.values[j].identity());
    }
    start.lemma_distribute_places(leaf.values);
    start.lemma_distribute_wf(leaf.values);
    let filled = start.distribute(leaf.values);
    filled.lemma_place_keeps(v);
}

/// Pruning: deleting at an internal node whose four subtrees hold no object
/// turns the node back into a leaf. Children of which one still holds an
/// object stay.
pub proof fn law_pruning<T: QuadtreeValue>(node: NodeModel<T>, v: T)
    requires
        node.wf(),
        !node.is_leaf(),
    ensures
        (forall|i: int| 0 <= i < 4 ==> (#[trigger] node.children[i]).is_empty()) ==> node.delete(
            v,
        ).is_leaf(),
        (exists|i: int| 0 <= i < 4 && !(#[trigger] node.children[i]).is_empty()) ==> node.delete(
            v,
        ).children == node.children,
        node.delete(v).values == node.without(v).values,
{
}

/// An object outside the tree's region is not added: the tree stays as it
/// is.
pub proof fn law_out_of_bounds_insert<T: QuadtreeValue>(tree: NodeModel<T>, v: T)
    requires
        !tree.rect.contains_region(&v.rect()),
    ensures
        tree.insert(v) == tree,
        tree.insert(v).all_values() == tree.all_values(),
{
}

} // verus!
