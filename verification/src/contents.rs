//! What a tree holds, whatever the order: how adding and deleting change the
//! multiset of stored objects.

use crate::node_lemmas::lemma_first_containing_by_regions;
use crate::node_model::NodeModel;
use crate::quadtree_value::QuadtreeValue;
use vstd::multiset::Multiset;
use vstd::prelude::*;
use vstd::seq_lib::lemma_multiset_commutative;

verus! {

/// An object with the identity `id` occurs in `bag`.
pub open spec fn bag_has_identity<T: QuadtreeValue>(bag: Multiset<T>, id: int) -> bool {
    exists|x: T| #[trigger] bag.count(x) > 0 && x.identity() == id
}

/// Whether a sequence has an element with a given identity shows in its
/// multiset.
pub proof fn lemma_seq_identity<T: QuadtreeValue>(s: Seq<T>, id: int)
    ensures
        (exists|k: int| 0 <= k < s.len() && (#[trigger] s[k]).identity() == id)
            <==> bag_has_identity(s.to_multiset(), id),
{
    broadcast use vstd::seq_lib::group_to_multiset_ensures;

    if exists|k: int| 0 <= k < s.len() && (#[trigger] s[k]).identity() == id {
        let k = choose|k: int| 0 <= k < s.len() && (#[trigger] s[k]).identity() == id;
        assert(s.to_multiset().count(s[k]) > 0);
    }
}

/// An element that a multiset counts twice stands at two places of the
/// sequence.
pub proof fn lemma_counted_twice<A>(s: Seq<A>, x: A)
    requires
        s.to_multiset().count(x) >= 2,
    ensures
        exists|i: int, j: int| 0 <= i < j < s.len() && s[i] == x && s[j] == x,
    decreases s.len(),
{
    broadcast use vstd::seq_lib::group_to_multiset_ensures;

    if s.len() > 0 {
        let front = s.drop_last();
        let last = s.last();
        assert(s =~= front.push(last));
        if last != x {
            lemma_counted_twice(front, x);
        }
    }
}

impl<T: QuadtreeValue> NodeModel<T> {
    /// A subtree holds an identity exactly when its multiset has an object
    /// with it.
    pub proof fn lemma_holds_identity(self, id: int)
        ensures
            self.holds_identity(id) <==> bag_has_identity(self.bag(), id),
            self.has_identity(id) <==> bag_has_identity(self.values.to_multiset(), id),
    {
        lemma_seq_identity(self.all_values(), id);
        lemma_seq_identity(self.values, id);
    }

    /// What a subtree holds is what its root stores together with what the
    /// subtrees below it hold.
    pub proof fn lemma_bag_parts(self)
        ensures
            self.bag() == self.values.to_multiset().add(Self::bag_of(self.children)),
    {
        lemma_multiset_commutative(self.values, Self::values_of(self.children));
    }

    /// What subtrees hold together is what the first of them hold together
    /// with what the last one holds.
    pub proof fn lemma_bag_of_last(nodes: Seq<Self>)
        requires
            nodes.len() > 0,
        ensures
            Self::bag_of(nodes) == Self::bag_of(nodes.drop_last()).add(nodes.last().bag()),
    {
        lemma_multiset_commutative(Self::values_of(nodes.drop_last()), nodes.last().all_values());
    }

    /// No subtrees hold nothing.
    pub proof fn lemma_bag_of_none(nodes: Seq<Self>)
        requires
            nodes.len() == 0,
        ensures
            Self::bag_of(nodes) == Multiset::<T>::empty(),
    {
        broadcast use vstd::seq_lib::group_to_multiset_ensures;
    }

    /// An object occurs in what subtrees hold together exactly when it
    /// occurs in what one of them holds.
    pub proof fn lemma_bag_of_count(nodes: Seq<Self>, x: T)
        ensures
            Self::bag_of(nodes).count(x) > 0 <==> (exists|i: int|
                0 <= i < nodes.len() && (#[trigger] nodes[i]).bag().count(x) > 0),
        decreases nodes.len(),
    {
        if nodes.len() == 0 {
            Self::lemma_bag_of_none(nodes);
        } else {
            Self::lemma_bag_of_last(nodes);
            Self::lemma_bag_of_count(nodes.drop_last(), x);
            let front = nodes.drop_last();
            if Self::bag_of(nodes).count(x) > 0 {
                if nodes.last().bag().count(x) == 0 {
                    let i = choose|i: int|
                        0 <= i < front.len() && (#[trigger] front[i]).bag().count(x) > 0;
                    assert(nodes[i] == front[i]);
                }
            }
            if exists|i: int| 0 <= i < nodes.len() && (#[trigger] nodes[i]).bag().count(x) > 0 {
                let i = choose|i: int|
                    0 <= i < nodes.len() && (#[trigger] nodes[i]).bag().count(x) > 0;
                if i < nodes.len() - 1 {
                    assert(front[i] == nodes[i]);
                }
            }
        }
    }

    /// A subtree holds an identity exactly when its root stores it or a
    /// subtree below it holds it.
    pub proof fn lemma_holds_identity_parts(self, id: int)
        ensures
            self.holds_identity(id) <==> (self.has_identity(id) || exists|i: int|
                0 <= i < self.children.len() && (#[trigger] self.children[i]).holds_identity(id)),
    {
        self.lemma_holds_identity(id);
        self.lemma_bag_parts();
        if self.holds_identity(id) {
            let x = choose|x: T| #[trigger] self.bag().count(x) > 0 && x.identity() == id;
            if self.values.to_multiset().count(x) == 0 {
                Self::lemma_bag_of_count(self.children, x);
                let i = choose|i: int|
                    0 <= i < self.children.len() && (#[trigger] self.children[i]).bag().count(x)
                        > 0;
                self.children[i].lemma_holds_identity(id);
            }
        }
        if self.has_identity(id) {
            let x = choose|x: T| #[trigger]
                self.values.to_multiset().count(x) > 0 && x.identity() == id;
            assert(self.bag().count(x) > 0);
        }
        if exists|i: int|
            0 <= i < self.children.len() && (#[trigger] self.children[i]).holds_identity(id) {
            let i = choose|i: int|
                0 <= i < self.children.len() && (#[trigger] self.children[i]).holds_identity(id);
            self.children[i].lemma_holds_identity(id);
            let x = choose|x: T| #[trigger]
                self.children[i].bag().count(x) > 0 && x.identity() == id;
            Self::lemma_bag_of_count(self.children, x);
            assert(self.bag().count(x) > 0);
        }
    }

    /// Exchanging one subtree for another exchanges what it holds.
    pub proof fn lemma_bag_of_update(nodes: Seq<Self>, i: int, node: Self)
        requires
            0 <= i < nodes.len(),
        ensures
            Self::bag_of(nodes.update(i, node)).add(nodes[i].bag()) == Self::bag_of(nodes).add(
                node.bag(),
            ),
        decreases nodes.len(),
    {
        let after = nodes.update(i, node);
        let front = nodes.drop_last();
        Self::lemma_bag_of_last(nodes);
        Self::lemma_bag_of_last(after);
        if i == nodes.len() - 1 {
            assert(after.drop_last() =~= front);
        } else {
            assert(after.drop_last() =~= front.update(i, node));
            Self::lemma_bag_of_update(front, i, node);
            assert forall|x: T|
                Self::bag_of(after).add(nodes[i].bag()).count(x) == Self::bag_of(nodes).add(
                    node.bag(),
                ).count(x) by {
                assert(Self::bag_of(front.update(i, node)).add(nodes[i].bag()).count(x)
                    == Self::bag_of(front).add(node.bag()).count(x));
            }
        }
    }

    /// Exchanging a child exchanges what it holds.
    pub proof fn lemma_bag_with_child(self, i: int, child: Self)
        requires
            0 <= i < self.children.len(),
        ensures
            self.with_child(i, child).bag().add(self.children[i].bag()) == self.bag().add(
                child.bag(),
            ),
    {
        self.lemma_bag_parts();
        self.with_child(i, child).lemma_bag_parts();
        Self::lemma_bag_of_update(self.children, i, child);
        assert forall|x: T|
            self.with_child(i, child).bag().add(self.children[i].bag()).count(x)
                == self.bag().add(child.bag()).count(x) by {
            assert(Self::bag_of(self.children.update(i, child)).add(
                self.children[i].bag(),
            ).count(x) == Self::bag_of(self.children).add(child.bag()).count(x));
        }
    }

    /// Exchanging the node at a path exchanges what it holds.
    pub proof fn lemma_bag_with_node_at(self, path: Seq<int>, node: Self)
        requires
            self.has_path(path),
        ensures
            self.with_node_at(path, node).bag().add(self.node_at(path).bag()) == self.bag().add(
                node.bag(),
            ),
        decreases path.len(),
    {
        if path.len() > 0 {
            let i = path[0];
            let child = self.children[i];
            let new_child = child.with_node_at(path.drop_first(), node);
            child.lemma_bag_with_node_at(path.drop_first(), node);
            self.lemma_bag_with_child(i, new_child);
            assert forall|x: T|
                self.with_node_at(path, node).bag().add(self.node_at(path).bag()).count(x)
                    == self.bag().add(node.bag()).count(x) by {
                assert(new_child.bag().add(child.node_at(path.drop_first()).bag()).count(x)
                    == child.bag().add(node.bag()).count(x));
                assert(self.with_child(i, new_child).bag().add(child.bag()).count(x)
                    == self.bag().add(new_child.bag()).count(x));
            }
        }
    }

    /// Storing an object at a node adds it to what the subtree holds, unless
    /// the node stores its identity already.
    pub proof fn lemma_store_bag(self, v: T)
        ensures
            self.store(v).bag() == (if self.has_identity(v.identity()) {
                self.bag()
            } else {
                self.bag().insert(v)
            }),
    {
        broadcast use vstd::seq_lib::group_to_multiset_ensures;

        if !self.has_identity(v.identity()) {
            self.lemma_bag_parts();
            self.store(v).lemma_bag_parts();
        }
    }

    /// What freshly made children hold is nothing.
    pub proof fn lemma_fresh_children_bag(self)
        ensures
            Self::bag_of(self.fresh_children()) == Multiset::<T>::empty(),
            self.with_contents(Seq::empty(), self.fresh_children()).bag() == Multiset::<
                T,
            >::empty(),
    {
        broadcast use vstd::seq_lib::group_to_multiset_ensures;

        let kids = self.fresh_children();
        Self::lemma_values_of_empty(kids);
    }

    /// Adding an object adds at most that object to what the subtree holds,
    /// and does add it if the subtree does not hold its identity.
    pub proof fn lemma_add_bag(self, v: T)
        requires
            self.wf(),
            self.rect.contains_region(&v.rect()),
        ensures
            self.add(v).bag() == self.bag() || self.add(v).bag() == self.bag().insert(v),
            !self.holds_identity(v.identity()) ==> self.add(v).bag() == self.bag().insert(v),
        decreases self.budget(), 2nat, 0nat,
    {
        if self.must_split() {
            let start = self.with_contents(Seq::empty(), self.fresh_children());
            self.lemma_fresh_children_wf();
            self.lemma_fresh_children_bag();
            assert forall|k: int| 0 <= k < self.values.len() implies !start.holds_identity(
                (#[trigger] self.values[k]).identity(),
            ) by {
                start.lemma_holds_identity(self.values[k].identity());
            }
            start.lemma_distribute_bag(self.values);
            start.lemma_distribute_wf(self.values);
            let filled = start.distribute(self.values);
            filled.lemma_place_bag(v);
            filled.lemma_holds_identity(v.identity());
            self.lemma_holds_identity(v.identity());
        } else {
            self.lemma_place_bag(v);
        }
    }

    /// `place` adds at most the object to what the subtree holds, and does
    /// add it if the subtree does not hold its identity.
    pub proof fn lemma_place_bag(self, v: T)
        requires
            self.wf(),
            self.rect.contains_region(&v.rect()),
        ensures
            self.place(v).bag() == self.bag() || self.place(v).bag() == self.bag().insert(v),
            !self.holds_identity(v.identity()) ==> self.place(v).bag() == self.bag().insert(v),
        decreases self.budget(), 1nat, 0nat,
    {
        self.lemma_store_bag(v);
        self.lemma_holds_identity_parts(v.identity());
        if !self.is_leaf() && self.values.len() >= self.threshold {
            self.lemma_first_child_containing(v.rect());
            match self.first_child_containing(v.rect()) {
                Some(i) => {
                    let child = self.children[i];
                    child.lemma_add_bag(v);
                    self.lemma_bag_with_child(i, child.add(v));
                    let after = self.with_child(i, child.add(v));
                    if !self.holds_identity(v.identity()) {
                        assert(child.bag().insert(v).count(v) == child.bag().count(v) + 1);
                    }
                    if child.add(v).bag() == child.bag() {
                        assert forall|x: T| after.bag().count(x) == self.bag().count(x) by {
                            assert(after.bag().add(child.bag()).count(x) == self.bag().add(
                                child.add(v).bag(),
                            ).count(x));
                        }
                    } else {
                        assert forall|x: T|
                            after.bag().count(x) == self.bag().insert(v).count(x) by {
                            assert(after.bag().add(child.bag()).count(x) == self.bag().add(
                                child.add(v).bag(),
                            ).count(x));
                        }
                    }
                },
                None => {},
            }
        }
    }

    /// `distribute` adds to what the subtree holds each of the objects it
    /// hands down, given that their identities differ from one another and
    /// from those that the subtree holds.
    pub proof fn lemma_distribute_bag(self, vals: Seq<T>)
        requires
            self.wf(),
            !self.is_leaf(),
            forall|k: int| 0 <= k < vals.len() ==> self.rect.contains_region(&(#[trigger] vals[k]).rect()),
            forall|i: int, j: int|
                #![trigger vals[i], vals[j]]
                0 <= i < j < vals.len() ==> vals[i].identity() != vals[j].identity(),
            forall|k: int| 0 <= k < vals.len() ==> !self.holds_identity((#[trigger] vals[k]).identity()),
        ensures
            self.distribute(vals).bag() == self.bag().add(vals.to_multiset()),
        decreases self.budget(), 1nat, vals.len(),
    {
        broadcast use vstd::seq_lib::group_to_multiset_ensures;

        if vals.len() > 0 {
            let v = vals[0];
            let rest = vals.drop_first();
            self.lemma_first_child_containing(v.rect());
            self.lemma_holds_identity_parts(v.identity());
            let next = match self.first_child_containing(v.rect()) {
                Some(i) => {
                    let child = self.children[i];
                    child.lemma_add_wf(v);
                    child.lemma_add_bag(v);
                    self.lemma_bag_with_child(i, child.add(v));
                    let after = self.with_child(i, child.add(v));
                    assert forall|x: T| after.bag().count(x) == self.bag().insert(v).count(x) by {
                        assert(after.bag().add(child.bag()).count(x) == self.bag().add(
                            child.add(v).bag(),
                        ).count(x));
                    }
                    after
                },
                None => {
                    self.lemma_store_bag(v);
                    self.store(v)
                },
            };
            assert forall|k: int| 0 <= k < rest.len() implies !next.holds_identity(
                (#[trigger] rest[k]).identity(),
            ) by {
                let id = rest[k].identity();
                next.lemma_holds_identity(id);
            }
            next.lemma_distribute_bag(rest);
            assert(vals =~= seq![v] + rest);
            lemma_multiset_commutative(seq![v], rest);
        }
    }

    /// Deleting at a node takes out of what the subtree holds the object
    /// that the node stored under that identity, and nothing else.
    pub proof fn lemma_delete_bag(self, v: T)
        requires
            self.wf(),
        ensures
            match self.stored(v) {
                Some(x) => x.identity() == v.identity() && self.bag() == self.delete(
                    v,
                ).bag().insert(x),
                None => self.delete(v).bag() == self.bag(),
            },
    {
        broadcast use vstd::seq_lib::group_to_multiset_ensures;

        self.lemma_pruned_wf();
        let p = self.pruned();
        if self.has_identity(v.identity()) {
            let after = p.without(v);
            p.lemma_bag_parts();
            after.lemma_bag_parts();
        }
    }

    /// `find_path` finds a node exactly when the subtree holds the identity.
    pub proof fn lemma_find_path_holds(self, id: int)
        ensures
            self.find_path(id).is_some() <==> self.holds_identity(id),
        decreases self,
    {
        self.lemma_holds_identity_parts(id);
        if !self.has_identity(id) {
            Self::lemma_find_path_in(self.children, id, 0);
            assert forall|i: int| 0 <= i < self.children.len() implies ((
            #[trigger] self.children[i]).find_path(id).is_some() <==> self.children[i].holds_identity(
                id,
            )) by {
                self.children[i].lemma_find_path_holds(id);
            }
        }
    }

    /// Deleting from the tree takes out of what it holds one object with
    /// that identity, if it holds one, and nothing else.
    pub proof fn lemma_remove_bag(self, v: T)
        requires
            self.wf(),
        ensures
            self.removed(v).is_some() <==> self.holds_identity(v.identity()),
            match self.removed(v) {
                Some(x) => x.identity() == v.identity() && self.bag() == self.remove(
                    v,
                ).bag().insert(x),
                None => self.remove(v) == self,
            },
    {
        let id = v.identity();
        self.lemma_find_path(id);
        self.lemma_find_path_holds(id);
        match self.find_path(id) {
            Some(p) => {
                let node = self.node_at(p);
                self.lemma_node_at_wf(p);
                node.lemma_delete_bag(v);
                self.lemma_bag_with_node_at(p, node.delete(v));
                let x = node.stored(v).unwrap();
                let after = self.remove(v);
                assert forall|y: T| self.bag().count(y) == after.bag().insert(x).count(y) by {
                    assert(after.bag().add(node.bag()).count(y) == self.bag().add(
                        node.delete(v).bag(),
                    ).count(y));
                }
            },
            None => {},
        }
    }

    /// Adding at the root adds at most the object to what the tree holds.
    /// It adds the object if the tree's region holds it and the tree does
    /// not hold its identity; it adds nothing if the tree's region does not
    /// hold it.
    pub proof fn lemma_insert_bag(self, v: T)
        requires
            self.wf(),
        ensures
            self.insert(v).bag() == self.bag() || self.insert(v).bag() == self.bag().insert(v),
            self.rect.contains_region(&v.rect()) && !self.holds_identity(v.identity())
                ==> self.insert(v).bag() == self.bag().insert(v),
            !self.rect.contains_region(&v.rect()) ==> self.insert(v) == self,
    {
        if self.rect.contains_region(&v.rect()) {
            self.lemma_add_bag(v);
        }
    }

    /// What one of several subtrees holds is part of what they hold
    /// together.
    pub proof fn lemma_bag_of_part(nodes: Seq<Self>, i: int, x: T)
        requires
            0 <= i < nodes.len(),
        ensures
            nodes[i].bag().count(x) <= Self::bag_of(nodes).count(x),
        decreases nodes.len(),
    {
        Self::lemma_bag_of_last(nodes);
        if i < nodes.len() - 1 {
            Self::lemma_bag_of_part(nodes.drop_last(), i, x);
        }
    }

    /// What a node further down holds, together with what this node stores
    /// itself, is part of what this node's subtree holds.
    pub proof fn lemma_bag_below(self, path: Seq<int>, x: T)
        requires
            self.has_path(path),
            path.len() > 0,
        ensures
            self.values.to_multiset().count(x) + self.node_at(path).bag().count(x)
                <= self.bag().count(x),
        decreases path.len(),
    {
        let i = path[0];
        let child = self.children[i];
        self.lemma_bag_parts();
        Self::lemma_bag_of_part(self.children, i, x);
        assert(self.node_at(path) == child.node_at(path.drop_first()));
        if path.len() > 1 {
            child.lemma_bag_below(path.drop_first(), x);
        }
    }

    /// What a node of the tree holds is part of what the tree holds.
    pub proof fn lemma_bag_node_at(self, path: Seq<int>, x: T)
        requires
            self.has_path(path),
        ensures
            self.node_at(path).bag().count(x) <= self.bag().count(x),
    {
        if path.len() > 0 {
            self.lemma_bag_below(path, x);
        }
    }

    /// Following one path and then another is following the two in a row.
    pub proof fn lemma_node_at_concat(self, first: Seq<int>, then: Seq<int>)
        requires
            self.has_path(first),
        ensures
            self.node_at(first + then) == self.node_at(first).node_at(then),
            self.has_path(first + then) == self.node_at(first).has_path(then),
        decreases first.len(),
    {
        if first.len() > 0 {
            assert((first + then).drop_first() =~= first.drop_first() + then);
            self.children[first[0]].lemma_node_at_concat(first.drop_first(), then);
        }
    }

    /// `other` has all that this node has: what this node stores itself,
    /// `other` stores too, and what a child's subtree holds here, the same
    /// child's subtree holds there. The children cover the same regions.
    pub open spec fn kept_by(self, other: Self) -> bool {
        &&& other.children.len() == self.children.len()
        &&& forall|y: T| self.values.contains(y) ==> #[trigger] other.values.contains(y)
        &&& forall|i: int|
            0 <= i < self.children.len() ==> (#[trigger] other.children[i]).rect
                == self.children[i].rect
        &&& forall|i: int, y: T|
            0 <= i < self.children.len() ==> self.children[i].bag().count(y) <= (
            #[trigger] other.children[i].bag().count(y))
    }

    /// Storing an object at a node keeps all that the node has.
    pub proof fn lemma_store_keeps(self, v: T)
        ensures
            self.kept_by(self.store(v)),
            !self.has_identity(v.identity()) ==> self.store(v).values.contains(v),
    {
        let after = self.store(v);
        if !self.has_identity(v.identity()) {
            assert(after.values[self.values.len() as int] == v);
            assert forall|y: T| self.values.contains(y) implies #[trigger] after.values.contains(
                y,
            ) by {
                let k = choose|k: int| 0 <= k < self.values.len() && self.values[k] == y;
                assert(after.values[k] == y);
            }
        }
    }

    /// Adding an object to a child keeps all that the node has, and the
    /// child's subtree holds the object afterwards if it did not hold its
    /// identity before.
    pub proof fn lemma_child_add_keeps(self, i: int, v: T)
        requires
            self.wf(),
            0 <= i < self.children.len(),
            self.children[i].rect.contains_region(&v.rect()),
        ensures
            self.kept_by(self.with_child(i, self.children[i].add(v))),
            !self.children[i].holds_identity(v.identity()) ==> self.with_child(
                i,
                self.children[i].add(v),
            ).children[i].bag().count(v) > 0,
    {
        let child = self.children[i];
        child.lemma_add_bag(v);
    }

    /// `place` keeps all that the node has.
    pub proof fn lemma_place_keeps(self, v: T)
        requires
            self.wf(),
            self.rect.contains_region(&v.rect()),
        ensures
            self.kept_by(self.place(v)),
    {
        self.lemma_store_keeps(v);
        if !self.is_leaf() && self.values.len() >= self.threshold {
            self.lemma_first_child_containing(v.rect());
            match self.first_child_containing(v.rect()) {
                Some(i) => {
                    self.lemma_child_add_keeps(i, v);
                },
                None => {},
            }
        }
    }

    /// `distribute` keeps all that the node has, and puts each object that
    /// it hands down into the subtree of the first child whose region holds
    /// it, or leaves it at the node if there is no such child; given that
    /// the identities of the objects differ from one another and from those
    /// that the subtree holds.
    pub proof fn lemma_distribute_places(self, vals: Seq<T>)
        requires
            self.wf(),
            !self.is_leaf(),
            forall|k: int| 0 <= k < vals.len() ==> self.rect.contains_region(&(#[trigger] vals[k]).rect()),
            forall|i: int, j: int|
                #![trigger vals[i], vals[j]]
                0 <= i < j < vals.len() ==> vals[i].identity() != vals[j].identity(),
            forall|k: int| 0 <= k < vals.len() ==> !self.holds_identity((#[trigger] vals[k]).identity()),
        ensures
            self.kept_by(self.distribute(vals)),
            forall|k: int|
                0 <= k < vals.len() ==> match self.first_child_containing(
                    (#[trigger] vals[k]).rect(),
                ) {
                    Some(i) => 0 <= i < 4 && self.distribute(vals).children[i].bag().count(vals[k])
                        > 0,
                    None => self.distribute(vals).values.contains(vals[k]),
                },
        decreases vals.len(),
    {
        let result = self.distribute(vals);
        if vals.len() > 0 {
            let v = vals[0];
            let rest = vals.drop_first();
            let id = v.identity();
            self.lemma_first_child_containing(v.rect());
            self.lemma_holds_identity_parts(id);
            let next = match self.first_child_containing(v.rect()) {
                Some(i) => {
                    let child = self.children[i];
                    child.lemma_add_wf(v);
                    child.lemma_add_bag(v);
                    self.lemma_bag_with_child(i, child.add(v));
                    let after = self.with_child(i, child.add(v));
                    assert forall|x: T| after.bag().count(x) == self.bag().insert(v).count(x) by {
                        assert(after.bag().add(child.bag()).count(x) == self.bag().add(
                            child.add(v).bag(),
                        ).count(x));
                    }
                    after
                },
                None => {
                    self.lemma_store_bag(v);
                    self.lemma_store_keeps(v);
                    self.store(v)
                },
            };
            assert forall|k: int| 0 <= k < rest.len() implies !next.holds_identity(
                (#[trigger] rest[k]).identity(),
            ) by {
                let other = rest[k].identity();
                next.lemma_holds_identity(other);
                self.lemma_holds_identity(other);
            }
            next.lemma_distribute_places(rest);
            assert forall|k: int| 0 <= k < vals.len() implies match self.first_child_containing(
                (#[trigger] vals[k]).rect(),
            ) {
                Some(i) => 0 <= i < 4 && result.children[i].bag().count(vals[k]) > 0,
                None => result.values.contains(vals[k]),
            } by {
                let rect = vals[k].rect();
                if k > 0 {
                    assert(rest[k - 1] == vals[k]);
                    lemma_first_containing_by_regions(self.children, next.children, rect, 0);
                }
            }
        }
    }
}

} // verus!
