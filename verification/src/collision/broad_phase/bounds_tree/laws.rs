//! What holds of every well-formed tree.

use super::model::{
    descend, inserted, links_ok, max_height, metrics_ok, redirect, removed, root_path, same_links,
    sibling_of,
};
use super::proofs::{
    lemma_descend_leaf, lemma_hits_along_path, lemma_hits_distinct, lemma_root_path,
    lemma_same_tree,
};
use super::{BoundsTree, Node, NodeId, NULL};
use crate::math::{lemma_intersects_container, Bounds};
use vstd::prelude::*;

verus! {

/// In a well-formed tree every leaf has height 0, and every branch has two
/// children in the tree, the union of their bounds as its bounds, and one
/// more than the greater of their heights as its height.
pub proof fn lemma_tree_invariant<T: Default>(tree: &BoundsTree<T>, id: NodeId)
    requires
        tree.wf(),
        tree.nodes().contains_key(id),
    ensures
        ({
            let nodes = tree.nodes();
            let node = nodes[id];
            if node.is_leaf() {
                node.height == 0
            } else {
                &&& nodes.contains_key(node.left)
                &&& nodes.contains_key(node.right)
                &&& node.bounds == nodes[node.left].bounds.union(&nodes[node.right].bounds)
                &&& node.height == 1 + max_height(nodes[node.left].height, nodes[node.right].height)
            }
        }),
{
    assert(links_ok(tree.nodes(), tree.root(), id));
    assert(metrics_ok(tree.nodes(), id));
}

/// Inserting a leaf and removing it again at once gives back the tree as it
/// was: the same root and the same nodes, hence the same leaves.
///
/// `with_leaf` is what `insert_leaf` makes of `before`, and `after` is what
/// `remove_leaf` makes of `with_leaf`.
pub proof fn lemma_insert_then_remove<T: Default>(
    before: &BoundsTree<T>,
    with_leaf: &BoundsTree<T>,
    after: &BoundsTree<T>,
    bounds: Bounds,
    data: T,
    leaf_id: NodeId,
)
    requires
        before.wf(),
        with_leaf.grown_from(before, bounds, data, leaf_id),
        after.shrunk_from(with_leaf, leaf_id),
    ensures
        after.root() == before.root(),
        after.nodes() == before.nodes(),
        after.leaves() == before.leaves(),
{
    let o = before.nodes();
    let m = with_leaf.nodes();
    let n = after.nodes();
    let o_root = before.root();
    assert(with_leaf.leaves().contains_key(leaf_id));
    assert(with_leaf.root() != NULL);
    if o_root == NULL {
        assert(n =~= o);
    } else {
        let branch = before.second_next_id();
        let sibling = descend(o, o_root, bounds);
        lemma_descend_leaf(o, o_root, o_root, bounds);
        assert(links_ok(o, o_root, sibling));
        assert(links_ok(m, with_leaf.root(), branch));
        assert(branch != NULL);
        assert(sibling_of(m, leaf_id) == sibling);
        assert(n.dom() =~= o.dom());
        assert forall|x: NodeId| o.contains_key(x) implies same_links(#[trigger] n[x], o[x]) && (o[x].left
            == NULL ==> n[x] == o[x]) by {
            assert(links_ok(o, o_root, x));
            if x != sibling {
                assert(n[x].parent == m[x].parent && m[x].parent == o[x].parent);
                assert(m[x].left == redirect(o[x].left, sibling, branch));
                assert(n[x].left == redirect(m[x].left, branch, sibling));
                assert(m[x].right == redirect(o[x].right, sibling, branch));
                assert(n[x].right == redirect(m[x].right, branch, sibling));
            }
        }
        assert forall|x: NodeId| o.contains_key(x) implies n[x] == o[x] by {
            lemma_same_tree(o, o_root, n, after.root(), x);
        }
        assert(n =~= o);
    }
}

/// A query misses no body: a leaf whose fattened bounds hold the true bounds
/// of its body is among the hits of every query that the true bounds meet.
pub proof fn lemma_query_sound<T: Default>(
    tree: &BoundsTree<T>,
    query: Bounds,
    leaf_id: NodeId,
    true_bounds: Bounds,
)
    requires
        tree.wf(),
        tree.leaves().contains_key(leaf_id),
        tree.leaves()[leaf_id].0.contains(&true_bounds),
        query.intersects(&true_bounds),
    ensures
        tree.hits(query).contains(leaf_id),
{
    let nodes = tree.nodes();
    lemma_intersects_container(query, true_bounds, nodes[leaf_id].bounds);
    lemma_root_path(nodes, tree.root(), leaf_id);
    lemma_hits_along_path(nodes, tree.root(), root_path(nodes, leaf_id), 0, query);
}

/// A query visits no leaf twice.
pub proof fn lemma_query_visits_once<T: Default>(tree: &BoundsTree<T>, query: Bounds)
    requires
        tree.wf(),
    ensures
        tree.hits(query).no_duplicates(),
{
    if tree.root() != NULL {
        lemma_hits_distinct(tree.nodes(), tree.root(), tree.root(), query);
    }
}

} // verus!
