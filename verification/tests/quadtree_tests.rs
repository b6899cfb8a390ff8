use evolution_sim::entity_wrapper::EntityWrapper;
use evolution_sim::quadtree::{update_quadtree, Quadtree};
use evolution_sim::quadtree_node::{QuadtreeNode, MAX_DEPTH, THRESHOLD};
use evolution_sim::region::{Point, Region};

fn item(entity: u64, x: i64, y: i64) -> EntityWrapper {
    EntityWrapper::new(entity, Point::new(x, y), Region::new(x, y, x + 1, y + 1))
}

fn entities(values: &[&EntityWrapper]) -> Vec<u64> {
    let mut ids: Vec<u64> = values.iter().map(|v| v.entity).collect();
    ids.sort();
    ids
}

fn scenario_tree() -> Quadtree<EntityWrapper> {
    let mut tree = Quadtree::with_limits(Region::new(-100, -100, 100, 100), 4, 3);
    tree.add(item(1, -90, -90));
    tree.add(item(2, -80, -80));
    tree.add(item(3, -70, -70));
    tree.add(item(4, -60, -60));
    tree.add(item(5, 50, 50));
    tree
}

#[test]
fn empty_tree_uses_default_limits() {
    let tree: Quadtree<EntityWrapper> = Quadtree::empty(Region::new(0, 0, 64, 64));
    assert_eq!(tree.rect, Region::new(0, 0, 64, 64));
    assert_eq!(tree.root.depth, 0);
    assert_eq!(tree.root.max_depth, MAX_DEPTH);
    assert_eq!(tree.root.threshold, THRESHOLD);
    assert_eq!(MAX_DEPTH, 8);
    assert_eq!(THRESHOLD, 10);
    assert!(tree.root.is_leaf());
    assert!(tree.root.is_empty());
    assert!(tree.root.get_all_descendant_values().is_empty());
}

#[test]
fn scenario_query_returns_the_south_west_four() {
    let tree = scenario_tree();
    let node = tree.query_rect(&Region::new(-100, -100, -50, -50)).unwrap();
    assert_eq!(node.rect, Region::new(-100, -100, 0, 0));
    assert_eq!(node.depth, 1);
    assert_eq!(entities(&node.get_all_descendant_values()), vec![1, 2, 3, 4]);
    assert_eq!(entities(&tree.root.get_all_descendant_values()), vec![1, 2, 3, 4, 5]);
}

#[test]
fn scenario_fifth_object_stays_at_the_root_after_the_split() {
    let tree = scenario_tree();
    assert!(!tree.root.is_leaf());
    assert_eq!(tree.root.children.len(), 4);
    assert_eq!(tree.root.values.len(), 1);
    assert_eq!(tree.root.values[0].entity, 5);
    assert_eq!(tree.root.children[3].values.len(), 4);
    assert!(tree.root.children[0].is_empty());
    assert!(tree.root.children[1].is_empty());
    assert!(tree.root.children[2].is_empty());
}

#[test]
fn out_of_bounds_insert_is_a_no_op() {
    let mut tree = scenario_tree();
    let before = tree.root.get_all_descendant_values().len();
    tree.add(EntityWrapper::new(9, Point::new(200, 200), Region::new(200, 200, 210, 210)));
    assert_eq!(tree.root.get_all_descendant_values().len(), before);
    assert_eq!(before, 5);
    // partly outside is outside
    tree.add(EntityWrapper::new(10, Point::new(95, 95), Region::new(95, 95, 101, 99)));
    assert_eq!(tree.root.get_all_descendant_values().len(), 5);
    // touching the edge is inside
    tree.add(EntityWrapper::new(11, Point::new(95, 95), Region::new(95, 95, 100, 100)));
    assert_eq!(tree.root.get_all_descendant_values().len(), 6);
}

#[test]
fn round_trip_finds_an_object_at_the_node_of_its_region() {
    let mut tree: Quadtree<EntityWrapper> = Quadtree::with_limits(Region::new(0, 0, 100, 100), 4, 3);
    let x = item(7, 10, 10);
    tree.add(x);
    let node = tree.query_rect(&x.rect).unwrap();
    let found = node.get_all_descendant_values();
    assert!(found.iter().any(|v| v.entity == 7 && v.rect == x.rect));
}

#[test]
fn round_trip_misses_an_object_kept_above_the_node_of_its_region() {
    // The fifth object arrives when the root is split. It stays at the
    // root, although the south-west child holds its region.
    let mut tree = Quadtree::with_limits(Region::new(-100, -100, 100, 100), 4, 3);
    tree.add(item(1, -90, -90));
    tree.add(item(2, -80, -80));
    tree.add(item(3, -70, -70));
    tree.add(item(4, -60, -60));
    let x = item(5, -50, -50);
    tree.add(x);
    let node = tree.query_rect(&x.rect).unwrap();
    assert_eq!(node.depth, 1);
    assert_eq!(entities(&node.get_all_descendant_values()), vec![1, 2, 3, 4]);
    assert!(tree.root.contains_value(&x));
}

#[test]
fn delete_removes_exactly_one_and_reinsert_is_found_again() {
    let mut tree = scenario_tree();
    let x = item(3, -70, -70);
    let removed = tree.delete(&x);
    assert_eq!(removed.map(|v| (v.entity, v.rect)), Some((3, x.rect)));
    assert_eq!(entities(&tree.root.get_all_descendant_values()), vec![1, 2, 4, 5]);
    assert!(tree.delete(&x).is_none());
    tree.add(x);
    assert_eq!(entities(&tree.root.get_all_descendant_values()), vec![1, 2, 3, 4, 5]);
    assert!(tree.query_value_mut(&x).is_some());
}

#[test]
fn delete_of_an_absent_object_returns_none() {
    let mut tree = scenario_tree();
    assert!(tree.delete(&item(42, 0, 0)).is_none());
    assert_eq!(tree.root.get_all_descendant_values().len(), 5);
}

#[test]
fn delete_goes_by_identity_not_by_region() {
    let mut tree = scenario_tree();
    let moved = item(2, 33, 33);
    let removed = tree.delete(&moved).unwrap();
    assert_eq!(removed.entity, 2);
    assert_eq!(removed.rect, Region::new(-80, -80, -79, -79));
}

#[test]
fn subdivision_keeps_all_eleven_objects() {
    let mut node: QuadtreeNode<EntityWrapper> = QuadtreeNode::empty(Region::new(0, 0, 100, 100), 0);
    for k in 0..10u64 {
        node.add(item(k, 60 + k as i64, 70 + k as i64));
    }
    assert!(node.is_leaf());
    assert_eq!(node.values.len(), 10);
    node.add(item(10, 5, 5));
    assert!(!node.is_leaf());
    let all = node.get_all_descendant_values();
    assert_eq!(entities(&all), (0..11).collect::<Vec<u64>>());
    // the ten clustered objects went to the north-east child
    assert_eq!(node.children[0].rect, Region::new(50, 50, 100, 100));
    assert_eq!(node.children[0].values.len(), 10);
    assert_eq!(node.children[0].depth, 1);
    // the eleventh is kept by the parent, which had room again
    assert_eq!(node.values.len(), 1);
    assert_eq!(node.values[0].entity, 10);
}

#[test]
fn straddling_objects_stay_at_the_parent() {
    let mut node: QuadtreeNode<EntityWrapper> =
        QuadtreeNode::with_limits(Region::new(0, 0, 100, 100), 0, 2, 4);
    node.add(EntityWrapper::new(1, Point::new(50, 50), Region::new(40, 40, 60, 60)));
    node.add(item(2, 10, 10));
    node.add(item(3, 80, 80));
    assert!(!node.is_leaf());
    // 1 straddles the center and stays, 2 went south-west, 3 is kept here
    assert_eq!(entities(&node.values.iter().collect::<Vec<_>>()), vec![1, 3]);
    assert_eq!(node.children[3].values.len(), 1);
    assert_eq!(node.children[3].values[0].entity, 2);
    // the node is full now: the next object that fits a child goes down
    node.add(item(4, 90, 10));
    assert_eq!(node.values.len(), 2);
    assert_eq!(node.children[2].values.len(), 1);
    assert_eq!(node.children[2].values[0].entity, 4);
    // and one that fits no child stays
    node.add(EntityWrapper::new(5, Point::new(50, 10), Region::new(45, 10, 55, 20)));
    assert_eq!(node.values.len(), 3);
}

#[test]
fn a_leaf_at_the_depth_limit_is_never_split() {
    let mut node: QuadtreeNode<EntityWrapper> =
        QuadtreeNode::with_limits(Region::new(0, 0, 100, 100), 2, 1, 2);
    for k in 0..20u64 {
        node.add(item(k, k as i64, k as i64));
    }
    assert!(node.is_leaf());
    assert_eq!(node.values.len(), 20);
}

#[test]
fn no_node_is_deeper_than_the_limit() {
    let mut tree: Quadtree<EntityWrapper> = Quadtree::with_limits(Region::new(0, 0, 1024, 1024), 1, 3);
    for k in 0..40u64 {
        tree.add(item(k, (k % 7) as i64, (k % 5) as i64));
    }
    let nodes = tree.root.get_all_descendant_nodes();
    assert!(!nodes.is_empty());
    assert!(nodes.iter().all(|n| n.depth <= 3));
    assert!(nodes.iter().any(|n| n.depth == 3));
    assert!(nodes.iter().all(|n| n.is_leaf() || n.depth < 3));
}

#[test]
fn the_same_identity_is_stored_once_per_node() {
    let mut node: QuadtreeNode<EntityWrapper> = QuadtreeNode::empty(Region::new(0, 0, 100, 100), 0);
    node.add(item(1, 10, 10));
    node.add(item(1, 20, 20));
    assert_eq!(node.values.len(), 1);
    assert_eq!(node.values[0].rect, Region::new(10, 10, 11, 11));
}

#[test]
fn stored_objects_lie_within_their_nodes() {
    let mut tree: Quadtree<EntityWrapper> = Quadtree::with_limits(Region::new(-64, -64, 64, 64), 2, 4);
    for k in 0..30u64 {
        let x = (k as i64 * 13) % 120 - 60;
        let y = (k as i64 * 29) % 120 - 60;
        tree.add(item(k, x, y));
    }
    assert_eq!(tree.root.get_all_descendant_values().len(), 30);
    let mut nodes = tree.root.get_all_descendant_nodes();
    nodes.push(&tree.root);
    for n in nodes {
        for v in n.values.iter() {
            assert!(n.rect.contains_region(&v.rect));
        }
        if !n.is_leaf() {
            assert_eq!(n.children.len(), 4);
            let q = n.rect.quadrants();
            for i in 0..4 {
                assert_eq!(n.children[i].rect, q[i]);
                assert_eq!(n.children[i].depth, n.depth + 1);
            }
        }
    }
}

#[test]
fn pruning_happens_at_the_next_delete_on_the_parent() {
    let mut tree = scenario_tree();
    // the root keeps object 5; its south-west child holds the other four
    for k in 1..5u64 {
        assert!(tree.delete(&item(k, 0, 0)).is_some());
    }
    assert!(!tree.root.is_leaf());
    assert!(tree.root.children.iter().all(|c| c.is_empty()));
    // the next delete that touches the root turns it back into a leaf
    assert!(tree.root.delete(&item(77, 0, 0)).is_none());
    assert!(tree.root.is_leaf());
    assert_eq!(tree.root.values.len(), 1);
}

#[test]
fn pruning_keeps_children_that_still_hold_objects_further_down() {
    let mut node: QuadtreeNode<EntityWrapper> =
        QuadtreeNode::with_limits(Region::new(0, 0, 128, 128), 0, 1, 3);
    node.add(item(1, 1, 1));
    node.add(item(2, 2, 2));
    node.add(item(3, 3, 3));
    node.add(item(4, 4, 4));
    assert_eq!(node.get_all_descendant_values().len(), 4);
    let before = node.get_all_descendant_nodes().len();
    assert!(before >= 8);
    assert!(node.delete(&item(99, 0, 0)).is_none());
    assert_eq!(node.get_all_descendant_nodes().len(), before);
    assert_eq!(node.get_all_descendant_values().len(), 4);
}

#[test]
fn query_outside_the_tree_is_none() {
    let mut tree = scenario_tree();
    assert!(tree.query_rect(&Region::new(90, 90, 110, 110)).is_none());
    assert!(tree.query_rect_mut(&Region::new(-200, -200, -150, -150)).is_none());
    assert!(tree.query_rect(&Region::new(-100, -100, 100, 100)).is_some());
}

#[test]
fn query_of_a_straddling_region_returns_the_parent() {
    let tree = scenario_tree();
    let node = tree.query_rect(&Region::new(-10, -10, 10, 10)).unwrap();
    assert_eq!(node.depth, 0);
    assert_eq!(node.rect, tree.rect);
}

#[test]
fn query_rect_mut_hands_out_the_same_node_as_query_rect() {
    let mut tree = scenario_tree();
    let rect = Region::new(-100, -100, -50, -50);
    let seen = tree.query_rect(&rect).map(|n| (n.rect, n.depth, n.values.len()));
    let node = tree.query_rect_mut(&rect).unwrap();
    assert_eq!(Some((node.rect, node.depth, node.values.len())), seen);
    assert!(node.delete(&item(1, 0, 0)).is_some());
    assert_eq!(entities(&tree.root.get_all_descendant_values()), vec![2, 3, 4, 5]);
}

#[test]
fn find_value_path_leads_to_the_node() {
    let mut tree = scenario_tree();
    assert_eq!(tree.root.find_value_path(&item(5, 0, 0)), Some(vec![]));
    assert_eq!(tree.root.find_value_path(&item(2, 0, 0)), Some(vec![3]));
    assert_eq!(tree.root.find_value_path(&item(6, 0, 0)), None);
    let node = tree.root.find_value_mut(&item(2, 0, 0)).unwrap();
    assert_eq!(node.depth, 1);
    assert!(node.contains_value(&item(2, 9, 9)));
    assert!(tree.root.find_value_mut(&item(6, 0, 0)).is_none());
}

#[test]
fn child_lookup_takes_the_first_child_that_holds_the_region() {
    let mut tree = scenario_tree();
    // the center point lies in all four children: the first one wins
    let center = Region::new(0, 0, 0, 0);
    assert!(tree.root.children_contain_rect(&center));
    assert_eq!(tree.root.child_index_containing(&center), Some(0));
    assert_eq!(tree.root.child_index_containing(&Region::new(-5, 0, 0, 5)), Some(1));
    assert_eq!(tree.root.child_index_containing(&Region::new(0, -5, 5, 0)), Some(2));
    assert_eq!(tree.root.child_index_containing(&Region::new(-5, -5, 0, 0)), Some(3));
    assert_eq!(tree.root.child_index_containing(&Region::new(-5, -5, 5, 5)), None);
    assert!(!tree.root.children_contain_rect(&Region::new(-5, -5, 5, 5)));
    let child = tree.root.get_child_containing_rect_mut(&Region::new(-5, -5, 0, 0)).unwrap();
    assert_eq!(child.rect, Region::new(-100, -100, 0, 0));
    assert!(tree.root.get_child_containing_rect_mut(&Region::new(-5, -5, 5, 5)).is_none());
}

#[test]
fn enumeration_lists_own_objects_first_then_each_subtree() {
    let tree = scenario_tree();
    let order: Vec<u64> = tree.root.get_all_descendant_values().iter().map(|v| v.entity).collect();
    assert_eq!(order, vec![5, 1, 2, 3, 4]);
    let nodes = tree.root.get_all_descendant_nodes();
    assert_eq!(nodes.len(), 4);
    assert_eq!(nodes[0].rect, Region::new(0, 0, 100, 100));
    assert_eq!(nodes[3].rect, Region::new(-100, -100, 0, 0));
}

#[test]
fn refresh_moves_an_object_that_left_its_node() {
    let mut tree = scenario_tree();
    // still where the tree has it: nothing to do
    assert!(!tree.is_stale(&item(1, -90, -90)));
    tree.refresh(item(1, -95, -95));
    assert_eq!(tree.root.children[3].values[0].rect, Region::new(-90, -90, -89, -89));
    // moved to the north-east quadrant
    let moved = item(1, 40, 40);
    assert!(tree.is_stale(&moved));
    tree.refresh(moved);
    assert_eq!(entities(&tree.root.get_all_descendant_values()), vec![1, 2, 3, 4, 5]);
    assert_eq!(tree.root.find_value_path(&moved), Some(vec![]));
    let at = tree.root.values.iter().find(|v| v.entity == 1).unwrap();
    assert_eq!(at.rect, moved.rect);
    // moved out of the tree: it is left where it was
    let gone = item(2, 500, 500);
    assert!(!tree.is_stale(&gone));
    tree.refresh(gone);
    assert_eq!(entities(&tree.root.get_all_descendant_values()), vec![1, 2, 3, 4, 5]);
}

#[test]
fn update_quadtree_refreshes_every_object() {
    let mut tree = scenario_tree();
    update_quadtree(&mut tree, vec![item(1, 40, 40), item(6, 10, 10), item(2, -80, -80)]);
    assert_eq!(entities(&tree.root.get_all_descendant_values()), vec![1, 2, 3, 4, 5, 6]);
    let one = tree.root.values.iter().find(|v| v.entity == 1).unwrap();
    assert_eq!(one.rect, Region::new(40, 40, 41, 41));
}

#[test]
fn wrappers_are_equal_by_entity() {
    let a = item(1, 0, 0);
    let b = item(1, 50, 50);
    let c = item(2, 0, 0);
    assert!(a == b);
    assert!(a != c);
    assert_eq!(a.pos, Point::new(0, 0));
}

#[test]
fn aggregate_statistic_adds_up_over_all_nodes() {
    let tree = scenario_tree();
    let nodes = tree.root.aggregate_statistic(&|_n: &QuadtreeNode<EntityWrapper>| 1u64);
    assert_eq!(nodes, Some(5));
    let values = tree.root.aggregate_statistic(&|n: &QuadtreeNode<EntityWrapper>| n.values.len() as u64);
    assert_eq!(values, Some(5));
    let leaves = tree.root.aggregate_statistic(&|n: &QuadtreeNode<EntityWrapper>| n.is_leaf() as u64);
    assert_eq!(leaves, Some(4));
    let deepest = tree.root.children[3].aggregate_statistic(&|n: &QuadtreeNode<EntityWrapper>| n.depth as u64);
    assert_eq!(deepest, Some(1));
}

#[test]
fn aggregate_statistic_is_none_when_the_sum_does_not_fit() {
    let tree = scenario_tree();
    let big = tree.root.aggregate_statistic(&|_n: &QuadtreeNode<EntityWrapper>| u64::MAX / 2);
    assert_eq!(big, None);
    let fits = tree.root.children[0].aggregate_statistic(&|_n: &QuadtreeNode<EntityWrapper>| u64::MAX);
    assert_eq!(fits, Some(u64::MAX));
}

#[test]
fn trees_built_by_the_operations_are_well_formed() {
    let mut tree = scenario_tree();
    assert!(tree.is_well_formed());
    tree.delete(&item(1, 0, 0));
    tree.refresh(item(2, 70, -70));
    assert!(tree.is_well_formed());
    assert!(tree.root.children[3].is_well_formed());
}

#[test]
fn damaged_trees_are_not_well_formed() {
    // an object outside its node
    let mut tree = scenario_tree();
    tree.root.values.push(item(50, 500, 500));
    assert!(!tree.is_well_formed());
    // the same identity twice at one node
    let mut tree = scenario_tree();
    tree.root.values.push(item(5, 20, 20));
    assert!(!tree.is_well_formed());
    // a child over the wrong region
    let mut tree = scenario_tree();
    tree.root.children[0].rect = Region::new(1, 1, 100, 100);
    assert!(!tree.is_well_formed());
    // a child at the wrong depth
    let mut tree = scenario_tree();
    tree.root.children[1].depth = 2;
    assert!(!tree.is_well_formed());
    // three children
    let mut tree = scenario_tree();
    tree.root.children.pop();
    assert!(!tree.is_well_formed());
    // a root that is not at depth 0, or not over the tree's region
    let mut tree = scenario_tree();
    tree.root.depth = 1;
    assert!(!tree.is_well_formed());
    let mut tree = scenario_tree();
    tree.rect = Region::new(-100, -100, 100, 101);
    assert!(!tree.is_well_formed());
    // children at the depth limit
    let mut tree = scenario_tree();
    tree.root.max_depth = 0;
    assert!(!tree.is_well_formed());
}

#[test]
fn a_long_run_of_operations_agrees_with_a_plain_list() {
    let mut tree: Quadtree<EntityWrapper> = Quadtree::with_limits(Region::new(-100, -100, 100, 100), 3, 4);
    let mut list: Vec<EntityWrapper> = Vec::new();
    let mut seed: u64 = 12345;
    let mut next = |bound: u64| -> u64 {
        seed = seed.wrapping_mul(6364136223846793005).wrapping_add(1442695040888963407);
        (seed >> 33) % bound
    };
    for step in 0..600 {
        let id = next(40);
        let x = next(240) as i64 - 120;
        let y = next(240) as i64 - 120;
        let value = item(id, x, y);
        let known = list.iter().position(|v| v.entity == id);
        match (next(4), known) {
            (0, Some(k)) => {
                let removed = tree.delete(&value).unwrap();
                assert_eq!(removed.rect, list[k].rect);
                list.remove(k);
            }
            (0, None) => {
                assert!(tree.delete(&value).is_none());
            }
            (_, Some(k)) => {
                if tree.is_stale(&value) {
                    list[k] = value;
                }
                tree.refresh(value);
            }
            (_, None) => {
                if tree.rect.contains_region(&value.rect) {
                    list.push(value);
                }
                tree.add(value);
            }
        }
        let mut held: Vec<(u64, Region)> =
            tree.root.get_all_descendant_values().iter().map(|v| (v.entity, v.rect)).collect();
        held.sort_by_key(|h| h.0);
        let mut expected: Vec<(u64, Region)> = list.iter().map(|v| (v.entity, v.rect)).collect();
        expected.sort_by_key(|h| h.0);
        assert_eq!(held, expected, "after step {}", step);
        assert!(tree.is_well_formed());
        assert_eq!(
            tree.root.aggregate_statistic(&|n: &QuadtreeNode<EntityWrapper>| n.values.len() as u64),
            Some(list.len() as u64)
        );
    }
    assert!(!tree.root.is_leaf());
}
