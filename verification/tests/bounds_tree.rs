use physics2d::collision::broad_phase::bounds_tree::{BoundsTree, Node, NodeId, NULL};
use physics2d::math::{Bounds, Vec2};

fn square(x: i32, y: i32, side: i32) -> Bounds {
    Bounds::new(Vec2::new(x, y), Vec2::new(x + side, y + side))
}

fn all_hits(tree: &BoundsTree<usize>, bounds: Bounds) -> Vec<NodeId> {
    tree.query(bounds, |_node: &Node<usize>| true)
}

/// Checks, for every node below `id`, what the tree promises of heights,
/// bounds and parent links, and returns the leaves in left-to-right order.
fn check_subtree(tree: &BoundsTree<usize>, id: NodeId, parent: NodeId, leaves: &mut Vec<NodeId>) {
    let node = tree.get_node(id);
    assert_eq!(node.parent, parent);
    if node.is_leaf() {
        assert_eq!(node.right, NULL);
        assert_eq!(node.height, 0);
        leaves.push(id);
    } else {
        let left = tree.get_node(node.left);
        let right = tree.get_node(node.right);
        assert_eq!(node.height, 1 + left.height.max(right.height));
        assert_eq!(node.bounds, left.bounds.union(&right.bounds));
        check_subtree(tree, node.left, id, leaves);
        check_subtree(tree, node.right, id, leaves);
    }
}

fn check_tree(tree: &BoundsTree<usize>) -> Vec<NodeId> {
    let mut leaves = Vec::new();
    if tree.root_id != NULL {
        check_subtree(tree, tree.root_id, NULL, &mut leaves);
    }
    leaves
}

#[test]
fn new_tree_is_empty() {
    let tree: BoundsTree<usize> = BoundsTree::new();
    assert_eq!(tree.root_id, NULL);
    assert!(!tree.contains(0));
    assert!(tree.has_room());
    assert!(all_hits(&tree, square(0, 0, 10)).is_empty());
}

#[test]
fn first_leaf_becomes_root() {
    let mut tree: BoundsTree<usize> = BoundsTree::new();
    let leaf = tree.insert_leaf(square(0, 0, 10), 7);
    assert_eq!(leaf, 0);
    assert_eq!(tree.root_id, leaf);
    let root = tree.get_root();
    assert!(root.is_leaf());
    assert_eq!(root.data, 7);
    assert_eq!(root.height, 0);
    assert_eq!(root.parent, NULL);
    assert_eq!(root.bounds, square(0, 0, 10));
    assert!(tree.contains_leaf(leaf));
}

#[test]
fn second_leaf_goes_right_of_new_branch() {
    let mut tree: BoundsTree<usize> = BoundsTree::new();
    let first = tree.insert_leaf(square(0, 0, 10), 1);
    let second = tree.insert_leaf(square(20, 0, 10), 2);
    assert_eq!((first, second), (0, 1));
    let branch = tree.root_id;
    assert_eq!(branch, 2);
    let root = tree.get_root();
    assert_eq!(root.left, first);
    assert_eq!(root.right, second);
    assert_eq!(root.height, 1);
    assert_eq!(root.bounds, Bounds::new(Vec2::new(0, 0), Vec2::new(30, 10)));
    assert_eq!(tree.get_node(first).parent, branch);
    assert_eq!(tree.get_node(second).parent, branch);
    assert!(!tree.contains_leaf(branch));
}

#[test]
fn insertion_descends_to_cheaper_child() {
    let mut tree: BoundsTree<usize> = BoundsTree::new();
    let left = tree.insert_leaf(square(0, 0, 10), 1);
    let right = tree.insert_leaf(square(100, 0, 10), 2);
    // Near the left leaf: growing it costs less than growing the right one.
    let near_left = tree.insert_leaf(square(5, 0, 10), 3);
    let branch = tree.get_node(near_left).parent;
    assert_eq!(tree.get_node(branch).left, left);
    assert_eq!(tree.get_node(branch).right, near_left);
    assert_eq!(tree.get_node(branch).parent, tree.root_id);
    assert_eq!(tree.get_root().left, branch);
    assert_eq!(tree.get_root().right, right);
    assert_eq!(tree.get_root().height, 2);
    assert_eq!(tree.get_root().bounds, Bounds::new(Vec2::new(0, 0), Vec2::new(110, 10)));
    assert_eq!(check_tree(&tree), vec![left, near_left, right]);
}

#[test]
fn insertion_goes_right_on_equal_cost() {
    let mut tree: BoundsTree<usize> = BoundsTree::new();
    let left = tree.insert_leaf(square(0, 0, 10), 1);
    let right = tree.insert_leaf(square(20, 0, 10), 2);
    // Midway between the two: both grow by the same amount.
    let middle = tree.insert_leaf(square(10, 0, 10), 3);
    let branch = tree.get_node(middle).parent;
    assert_eq!(tree.get_node(branch).left, right);
    assert_eq!(tree.get_node(branch).right, middle);
    assert_eq!(tree.get_root().left, left);
    assert_eq!(tree.get_root().right, branch);
}

#[test]
fn tree_invariant_holds_after_inserts_and_removes() {
    let mut tree: BoundsTree<usize> = BoundsTree::new();
    let mut ids = Vec::new();
    for i in 0..20 {
        let x = (i * 37) % 101;
        let y = (i * 53) % 89;
        ids.push(tree.insert_leaf(square(x, y, 5 + i % 7), i as usize));
        assert_eq!(check_tree(&tree).len(), ids.len());
    }
    for i in 0..10 {
        tree.remove_leaf(ids[i * 2]);
        let leaves = check_tree(&tree);
        assert_eq!(leaves.len(), 20 - i - 1);
        assert!(!leaves.contains(&ids[i * 2]));
    }
    for i in 0..10 {
        assert!(tree.contains_leaf(ids[i * 2 + 1]));
        assert_eq!(tree.get_node(ids[i * 2 + 1]).data, i * 2 + 1);
    }
}

#[test]
fn removing_the_only_leaf_empties_the_tree() {
    let mut tree: BoundsTree<usize> = BoundsTree::new();
    let leaf = tree.insert_leaf(square(0, 0, 10), 1);
    tree.remove_leaf(leaf);
    assert_eq!(tree.root_id, NULL);
    assert!(!tree.contains(leaf));
}

#[test]
fn removing_from_an_empty_tree_does_nothing() {
    let mut tree: BoundsTree<usize> = BoundsTree::new();
    tree.remove_leaf(0);
    tree.remove_leaf(NULL);
    assert_eq!(tree.root_id, NULL);
    assert!(all_hits(&tree, square(0, 0, 10)).is_empty());
}

#[test]
fn removing_a_child_of_the_root_promotes_its_sibling() {
    let mut tree: BoundsTree<usize> = BoundsTree::new();
    let first = tree.insert_leaf(square(0, 0, 10), 1);
    let second = tree.insert_leaf(square(20, 0, 10), 2);
    tree.remove_leaf(first);
    assert_eq!(tree.root_id, second);
    assert_eq!(tree.get_root().parent, NULL);
    assert!(!tree.contains(first));
    assert!(!tree.contains(2));
}

#[test]
fn removing_a_deep_leaf_splices_its_sibling_under_the_grandparent() {
    let mut tree: BoundsTree<usize> = BoundsTree::new();
    let left = tree.insert_leaf(square(0, 0, 10), 1);
    let right = tree.insert_leaf(square(100, 0, 10), 2);
    let near_left = tree.insert_leaf(square(5, 0, 10), 3);
    tree.remove_leaf(near_left);
    assert_eq!(tree.get_root().left, left);
    assert_eq!(tree.get_root().right, right);
    assert_eq!(tree.get_node(left).parent, tree.root_id);
    assert_eq!(tree.get_root().height, 1);
    assert_eq!(tree.get_root().bounds, Bounds::new(Vec2::new(0, 0), Vec2::new(110, 10)));
}

#[test]
fn insert_then_remove_restores_the_tree() {
    let mut tree: BoundsTree<usize> = BoundsTree::new();
    let mut ids = Vec::new();
    for i in 0..6 {
        ids.push(tree.insert_leaf(square(i * 15, (i % 3) * 20, 10), i as usize));
    }
    let root_before = tree.root_id;
    let leaves_before = check_tree(&tree);
    let nodes_before: Vec<_> = (0..11)
        .map(|id| {
            let n = tree.get_node(id);
            (n.bounds, n.parent, n.left, n.right, n.data, n.height)
        })
        .collect();
    let leaf = tree.insert_leaf(square(200, 200, 30), 99);
    assert!(tree.contains_leaf(leaf));
    tree.remove_leaf(leaf);
    assert_eq!(tree.root_id, root_before);
    assert_eq!(check_tree(&tree), leaves_before);
    let nodes_after: Vec<_> = (0..11)
        .map(|id| {
            let n = tree.get_node(id);
            (n.bounds, n.parent, n.left, n.right, n.data, n.height)
        })
        .collect();
    assert_eq!(nodes_after, nodes_before);
    assert!(!tree.contains(leaf));
}

#[test]
fn freed_slots_are_reused_leaf_first() {
    let mut tree: BoundsTree<usize> = BoundsTree::new();
    let a = tree.insert_leaf(square(0, 0, 10), 1);
    let b = tree.insert_leaf(square(20, 0, 10), 2);
    let branch = tree.get_node(b).parent;
    tree.remove_leaf(b);
    let again = tree.insert_leaf(square(40, 0, 10), 3);
    assert_eq!(again, b);
    assert_eq!(tree.get_node(again).parent, branch);
    assert_eq!(tree.get_node(a).parent, branch);
}

#[test]
fn query_visits_right_child_first() {
    let mut tree: BoundsTree<usize> = BoundsTree::new();
    let a = tree.insert_leaf(square(0, 0, 10), 1);
    let b = tree.insert_leaf(square(100, 0, 10), 2);
    let c = tree.insert_leaf(square(5, 0, 10), 3);
    assert_eq!(all_hits(&tree, square(-50, -50, 500)), vec![b, c, a]);
}

#[test]
fn query_skips_what_does_not_intersect() {
    let mut tree: BoundsTree<usize> = BoundsTree::new();
    let a = tree.insert_leaf(square(0, 0, 10), 1);
    let b = tree.insert_leaf(square(100, 0, 10), 2);
    let c = tree.insert_leaf(square(5, 0, 10), 3);
    assert_eq!(all_hits(&tree, square(8, 2, 1)), vec![c, a]);
    assert_eq!(all_hits(&tree, square(105, 5, 1)), vec![b]);
    assert!(all_hits(&tree, square(50, 0, 10)).is_empty());
    // Touching edges count as intersecting.
    assert_eq!(all_hits(&tree, square(110, 10, 5)), vec![b]);
}

#[test]
fn query_stops_when_the_visitor_says_so() {
    let mut tree: BoundsTree<usize> = BoundsTree::new();
    let _a = tree.insert_leaf(square(0, 0, 10), 1);
    let b = tree.insert_leaf(square(100, 0, 10), 2);
    let c = tree.insert_leaf(square(5, 0, 10), 3);
    let everything = square(-50, -50, 500);
    assert_eq!(tree.query(everything, |_node: &Node<usize>| false), vec![b]);
    assert_eq!(tree.query(everything, |node: &Node<usize>| node.data != 3), vec![b, c]);
}

#[test]
fn query_finds_every_intersecting_leaf() {
    let mut tree: BoundsTree<usize> = BoundsTree::new();
    let mut boxes = Vec::new();
    for i in 0..30 {
        let b = square((i * 37) % 101, (i * 53) % 89, 5 + i % 7);
        boxes.push((tree.insert_leaf(b, i as usize), b));
    }
    for q in 0..25 {
        let query = square((q * 17) % 90, (q * 29) % 80, 12);
        let mut found = all_hits(&tree, query);
        found.sort();
        let mut expected: Vec<NodeId> =
            boxes.iter().filter(|(_, b)| query.intersects(b)).map(|(id, _)| *id).collect();
        expected.sort();
        assert_eq!(found, expected);
    }
}

#[test]
fn node_accessors_reach_the_same_node() {
    let mut tree: BoundsTree<usize> = BoundsTree::new();
    let leaf = tree.insert_leaf(square(0, 0, 10), 4);
    tree.get_node_mut(leaf).data = 5;
    assert_eq!(tree.get_node(leaf).data, 5);
    tree.get_root_mut().data = 6;
    assert_eq!(tree.get_root().data, 6);
    let fresh: Node<usize> = Node::default();
    assert_eq!(fresh.parent, NULL);
    assert_eq!(fresh.left, NULL);
    assert_eq!(fresh.right, NULL);
    assert_eq!(fresh.height, 0);
    assert_eq!(fresh.data, 0);
    assert_eq!(fresh.bounds, Bounds::new(Vec2::zero(), Vec2::zero()));
    let made = Node::new(square(1, 2, 3), 9usize);
    assert!(made.is_leaf());
    assert_eq!(made.data, 9);
}

#[test]
fn root_height_follows_the_deepest_leaf() {
    let mut tree: BoundsTree<usize> = BoundsTree::new();
    assert_eq!(tree.root_height(), 0);
    let a = tree.insert_leaf(square(0, 0, 10), 1);
    assert_eq!(tree.root_height(), 0);
    let _b = tree.insert_leaf(square(100, 0, 10), 2);
    assert_eq!(tree.root_height(), 1);
    let c = tree.insert_leaf(square(5, 0, 10), 3);
    assert_eq!(tree.root_height(), 2);
    assert!(tree.has_room());
    tree.remove_leaf(c);
    assert_eq!(tree.root_height(), 1);
    tree.remove_leaf(a);
    assert_eq!(tree.root_height(), 0);
}

#[test]
fn leaf_bounds_and_data_survive_other_edits() {
    let mut tree: BoundsTree<usize> = BoundsTree::new();
    let a = tree.insert_leaf(square(0, 0, 10), 11);
    let b = tree.insert_leaf(square(30, 40, 5), 22);
    let c = tree.insert_leaf(square(-20, 7, 3), 33);
    tree.remove_leaf(b);
    let d = tree.insert_leaf(square(1, 1, 1), 44);
    for (id, bounds, data) in
        [(a, square(0, 0, 10), 11), (c, square(-20, 7, 3), 33), (d, square(1, 1, 1), 44)]
    {
        assert!(tree.contains_leaf(id));
        assert_eq!(tree.get_node(id).bounds, bounds);
        assert_eq!(tree.get_node(id).data, data);
    }
    assert_eq!(check_tree(&tree).len(), 3);
}

#[test]
fn root_accessor_gives_the_root_field() {
    let mut tree: BoundsTree<usize> = BoundsTree::new();
    assert_eq!(tree.root_id(), NULL);
    let a = tree.insert_leaf(square(0, 0, 10), 1);
    assert_eq!(tree.root_id(), a);
    let b = tree.insert_leaf(square(20, 0, 10), 2);
    assert_eq!(tree.root_id(), tree.root_id);
    assert_eq!(tree.root_id(), tree.get_node(b).parent);
}
