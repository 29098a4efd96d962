//! The tree as a map from node ids to nodes: what makes such a map a tree,
//! what a query reports, and what insertion and removal do to it.

use super::{Node, NodeId, NULL};
use crate::math::Bounds;
use vstd::prelude::*;

verus! {

pub open spec fn max_height(a: u32, b: u32) -> int {
    if a >= b {
        a as int
    } else {
        b as int
    }
}

/// The links of node `id` agree with those of its parent and children.
pub open spec fn links_ok<T: Default>(nodes: Map<NodeId, Node<T>>, root: NodeId, id: NodeId) -> bool {
    let n = nodes[id];
    &&& id != NULL
    &&& (n.parent == NULL <==> id == root)
    &&& n.parent != NULL ==> nodes.contains_key(n.parent) && (nodes[n.parent].left == id
        || nodes[n.parent].right == id)
    &&& n.left == NULL ==> n.right == NULL
    &&& n.left != NULL ==> {
        &&& n.right != NULL
        &&& n.left != n.right
        &&& nodes.contains_key(n.left)
        &&& nodes.contains_key(n.right)
        &&& nodes[n.left].parent == id
        &&& nodes[n.right].parent == id
    }
}

/// A leaf has height 0; a branch has the union of its children's bounds and
/// one more than the greater of their heights.
pub open spec fn metrics_ok<T: Default>(nodes: Map<NodeId, Node<T>>, id: NodeId) -> bool {
    let n = nodes[id];
    if n.left == NULL {
        n.height == 0
    } else {
        &&& n.height == 1 + max_height(nodes[n.left].height, nodes[n.right].height)
        &&& n.bounds == nodes[n.left].bounds.union(&nodes[n.right].bounds)
    }
}

/// The nodes form one binary tree under `root`, or there are none and `root`
/// is null.
pub open spec fn tree_ok<T: Default>(nodes: Map<NodeId, Node<T>>, root: NodeId) -> bool {
    &&& root == NULL ==> forall|id: NodeId| !nodes.contains_key(id)
    &&& root != NULL ==> nodes.contains_key(root)
    &&& forall|id: NodeId| nodes.contains_key(id) ==> #[trigger] links_ok(nodes, root, id)
    &&& forall|id: NodeId| nodes.contains_key(id) ==> #[trigger] metrics_ok(nodes, id)
}

/// Two nodes differ at most in bounds and height.
pub open spec fn same_links<T: Default>(a: Node<T>, b: Node<T>) -> bool {
    &&& a.parent == b.parent
    &&& a.left == b.left
    &&& a.right == b.right
    &&& a.data == b.data
}

/// The leaves below `id` whose bounds meet `query`, in the order in which a
/// depth-first search that takes the right child first comes to them.
pub open spec fn hits<T: Default>(nodes: Map<NodeId, Node<T>>, id: NodeId, query: Bounds) -> Seq<
    NodeId,
>
    decreases nodes[id].height,
{
    let n = nodes[id];
    if !query.intersects(&n.bounds) {
        Seq::empty()
    } else if n.left == NULL {
        seq![id]
    } else if nodes[n.left].height < n.height && nodes[n.right].height < n.height {
        hits(nodes, n.right, query) + hits(nodes, n.left, query)
    } else {
        Seq::empty()
    }
}

/// What a search still has to report when `stack` holds the subtrees it has
/// not entered yet, the next one at the end.
pub open spec fn pending_hits<T: Default>(
    nodes: Map<NodeId, Node<T>>,
    stack: Seq<NodeId>,
    query: Bounds,
) -> Seq<NodeId>
    decreases stack.len(),
{
    if stack.len() == 0 {
        Seq::empty()
    } else {
        hits(nodes, stack.last(), query) + pending_hits(nodes, stack.drop_last(), query)
    }
}

/// Number of nodes in the subtree under `id`.
pub open spec fn subtree_size<T: Default>(nodes: Map<NodeId, Node<T>>, id: NodeId) -> nat
    decreases nodes[id].height,
{
    let n = nodes[id];
    if n.left != NULL && nodes[n.left].height < n.height && nodes[n.right].height < n.height {
        1 + subtree_size(nodes, n.left) + subtree_size(nodes, n.right)
    } else {
        1
    }
}

pub open spec fn pending_size<T: Default>(nodes: Map<NodeId, Node<T>>, stack: Seq<NodeId>) -> nat
    decreases stack.len(),
{
    if stack.len() == 0 {
        0
    } else {
        subtree_size(nodes, stack.last()) + pending_size(nodes, stack.drop_last())
    }
}

/// What it costs to grow `bounds` so that it also holds `leaf`: the growth of
/// its perimeter.
pub open spec fn growth_cost(bounds: Bounds, leaf: Bounds) -> int {
    bounds.union(&leaf).spec_perimeter() - bounds.spec_perimeter()
}

/// The leaf that a descent from `id` ends at when it goes, at each branch, to
/// the child that is cheaper to grow around `leaf`, and to the right child on
/// a tie.
pub open spec fn descend<T: Default>(nodes: Map<NodeId, Node<T>>, id: NodeId, leaf: Bounds) -> NodeId
    decreases nodes[id].height,
{
    let n = nodes[id];
    if n.left != NULL && nodes[n.left].height < n.height && nodes[n.right].height < n.height {
        if growth_cost(nodes[n.left].bounds, leaf) < growth_cost(nodes[n.right].bounds, leaf) {
            descend(nodes, n.left, leaf)
        } else {
            descend(nodes, n.right, leaf)
        }
    } else {
        id
    }
}

/// The nodes from the root down to `id`.
pub open spec fn root_path<T: Default>(nodes: Map<NodeId, Node<T>>, id: NodeId) -> Seq<NodeId>
    decreases u32::MAX - nodes[id].height,
{
    let p = nodes[id].parent;
    if p != NULL && nodes[id].height < nodes[p].height {
        root_path(nodes, p).push(id)
    } else {
        seq![id]
    }
}

/// `path` leads from the root down to its last node, each node the parent of
/// the next.
pub open spec fn is_root_path<T: Default>(nodes: Map<NodeId, Node<T>>, path: Seq<NodeId>) -> bool {
    &&& path.no_duplicates()
    &&& forall|i: int| 0 <= i < path.len() ==> nodes.contains_key(#[trigger] path[i])
    &&& path.len() > 0 ==> nodes[path[0]].parent == NULL
    &&& forall|i: int, j: int|
        0 <= i && j == i + 1 && j < path.len() ==> nodes[#[trigger] path[j]].parent
            == #[trigger] path[i] && nodes[path[j]].height < nodes[path[i]].height
}


/// `link`, or `to` where `link` was `from`.
pub open spec fn redirect(link: NodeId, from: NodeId, to: NodeId) -> NodeId {
    if link == from {
        to
    } else {
        link
    }
}

/// At step `i` of `path`, the child that the path does not go through lies
/// lower than the node.
pub open spec fn off_path_children_lower<T: Default>(
    nodes: Map<NodeId, Node<T>>,
    path: Seq<NodeId>,
    i: int,
) -> bool {
    let n = nodes[path[i]];
    &&& n.left != path[i + 1] ==> nodes[n.left].height < n.height
    &&& n.right != path[i + 1] ==> nodes[n.right].height < n.height
}

/// The state in which heights and bounds can be recomputed from `start` up to
/// the root: all links are in order, and so are height and bounds of every
/// node that is not on `path`, the way from the root down to `start`. The
/// children of `start` may lie higher than its stored height allows, by
/// `slack` at most.
#[verifier::opaque]
pub open spec fn refit_ready<T: Default>(
    nodes: Map<NodeId, Node<T>>,
    root: NodeId,
    start: NodeId,
    path: Seq<NodeId>,
    slack: int,
) -> bool {
    &&& root != NULL
    &&& nodes.contains_key(root)
    &&& is_root_path(nodes, path)
    &&& (start == NULL <==> path.len() == 0)
    &&& path.len() > 0 ==> path.last() == start
    &&& forall|i: int| 0 <= i < path.len() ==> nodes[#[trigger] path[i]].left != NULL
    &&& forall|id: NodeId| nodes.contains_key(id) ==> #[trigger] links_ok(nodes, root, id)
    &&& forall|id: NodeId|
        nodes.contains_key(id) && !path.contains(id) ==> #[trigger] metrics_ok(nodes, id)
    &&& forall|i: int|
        0 <= i < path.len() - 1 ==> #[trigger] off_path_children_lower(nodes, path, i)
    &&& path.len() > 0 ==> {
        let n = nodes[path.last()];
        &&& nodes[n.left].height + 1 <= n.height + slack
        &&& nodes[n.right].height + 1 <= n.height + slack
        &&& nodes[path[0]].height + slack <= u32::MAX
    }
}

/// Where the recomputation stands when the nodes `path[i + 1..]` are done and
/// `path[..=i]` are still to do: `m` is the current state, `o` the state it
/// started from.
#[verifier::opaque]
pub open spec fn refit_step<T: Default>(
    o: Map<NodeId, Node<T>>,
    m: Map<NodeId, Node<T>>,
    path: Seq<NodeId>,
    slack: int,
    i: int,
) -> bool {
    &&& m.dom() == o.dom()
    &&& forall|id: NodeId| o.contains_key(id) ==> same_links(#[trigger] m[id], o[id])
    &&& forall|id: NodeId| o.contains_key(id) && !path.contains(id) ==> #[trigger] m[id] == o[id]
    &&& forall|j: int| 0 <= j <= i && j < path.len() ==> m[#[trigger] path[j]] == o[path[j]]
    &&& forall|j: int| i < j < path.len() ==> metrics_ok(m, #[trigger] path[j])
    &&& forall|j: int| i < j < path.len() ==> m[#[trigger] path[j]].height <= o[path[j]].height + slack
}

/// `n` is `o` with height and bounds recomputed along `path`.
pub open spec fn refitted<T: Default>(
    o: Map<NodeId, Node<T>>,
    n: Map<NodeId, Node<T>>,
    path: Seq<NodeId>,
    slack: int,
) -> bool {
    &&& n.dom() == o.dom()
    &&& forall|id: NodeId| o.contains_key(id) ==> same_links(#[trigger] n[id], o[id])
    &&& forall|id: NodeId| o.contains_key(id) && !path.contains(id) ==> #[trigger] n[id] == o[id]
    &&& forall|i: int| 0 <= i < path.len() ==> n[#[trigger] path[i]].height <= o[path[i]].height + slack
}

/// What node `id` becomes when height and bounds are recomputed from its
/// children.
pub open spec fn refit_node<T: Default>(m: Map<NodeId, Node<T>>, id: NodeId) -> Node<T> {
    let n = m[id];
    Node {
        height: (1 + max_height(m[n.left].height, m[n.right].height)) as u32,
        bounds: m[n.left].bounds.union(&m[n.right].bounds),
        ..n
    }
}

/// The links after `leaf` went in beside `sibling` under the new `branch`,
/// before heights and bounds above the branch are recomputed.
pub open spec fn insert_rewired<T: Default>(
    o: Map<NodeId, Node<T>>,
    m: Map<NodeId, Node<T>>,
    leaf: NodeId,
    branch: NodeId,
    sibling: NodeId,
    bounds: Bounds,
    data: T,
) -> bool {
    let g = o[sibling].parent;
    &&& m.dom() == o.dom().insert(leaf).insert(branch)
    &&& m[leaf] == Node { bounds, parent: branch, left: NULL, right: NULL, data, height: 0 }
    &&& m[branch].parent == g
    &&& m[branch].left == sibling
    &&& m[branch].right == leaf
    &&& m[branch].height == 1
    &&& m[branch].bounds == bounds.union(&o[sibling].bounds)
    &&& m[sibling] == Node { parent: branch, ..o[sibling] }
    &&& g != NULL ==> m[g] == Node {
        left: redirect(o[g].left, sibling, branch),
        right: redirect(o[g].right, sibling, branch),
        ..o[g]
    }
    &&& forall|id: NodeId| o.contains_key(id) && id != sibling && id != g ==> #[trigger] m[id] == o[id]
}

/// The tree `n` under `n_root` is the tree `o` under `o_root` after a leaf
/// with `bounds` and `data` went in as node `leaf`. In an empty tree the leaf
/// is the root. Otherwise the leaf that `descend` ends at becomes the left
/// child of the new node `branch`, which takes that leaf's place under its
/// former parent, and the new leaf becomes the right child. No other link and
/// no other leaf changes.
pub open spec fn inserted<T: Default>(
    o: Map<NodeId, Node<T>>,
    o_root: NodeId,
    n: Map<NodeId, Node<T>>,
    n_root: NodeId,
    bounds: Bounds,
    data: T,
    leaf: NodeId,
    branch: NodeId,
) -> bool {
    if o_root == NULL {
        &&& n_root == leaf
        &&& n == o.insert(leaf, Node::spec_new(bounds, data))
    } else {
        let sibling = descend(o, o_root, bounds);
        &&& n.dom() == o.dom().insert(leaf).insert(branch)
        &&& n_root == (if sibling == o_root {
            branch
        } else {
            o_root
        })
        &&& n[leaf] == Node { bounds, parent: branch, left: NULL, right: NULL, data, height: 0 }
        &&& n[branch].parent == o[sibling].parent
        &&& n[branch].left == sibling
        &&& n[branch].right == leaf
        &&& n[sibling] == Node { parent: branch, ..o[sibling] }
        &&& forall|id: NodeId|
            o.contains_key(id) && id != sibling ==> {
                &&& (#[trigger] n[id]).parent == o[id].parent
                &&& n[id].data == o[id].data
                &&& n[id].left == redirect(o[id].left, sibling, branch)
                &&& n[id].right == redirect(o[id].right, sibling, branch)
                &&& o[id].left == NULL ==> n[id] == o[id]
            }
    }
}

/// The other child of the parent of `leaf`.
pub open spec fn sibling_of<T: Default>(o: Map<NodeId, Node<T>>, leaf: NodeId) -> NodeId {
    let branch = o[leaf].parent;
    if o[branch].left == leaf {
        o[branch].right
    } else {
        o[branch].left
    }
}

/// The links after `leaf` and its parent went out and the sibling of `leaf`
/// took the parent's place, before heights and bounds above are recomputed.
pub open spec fn remove_rewired<T: Default>(
    o: Map<NodeId, Node<T>>,
    m: Map<NodeId, Node<T>>,
    leaf: NodeId,
) -> bool {
    let branch = o[leaf].parent;
    let sibling = sibling_of(o, leaf);
    let g = o[branch].parent;
    &&& m.dom() == o.dom().remove(leaf).remove(branch)
    &&& m[sibling] == Node { parent: g, ..o[sibling] }
    &&& g != NULL ==> m[g] == Node {
        left: redirect(o[g].left, branch, sibling),
        right: redirect(o[g].right, branch, sibling),
        ..o[g]
    }
    &&& forall|id: NodeId| m.contains_key(id) && id != sibling && id != g ==> #[trigger] m[id] == o[id]
}

/// The tree `n` under `n_root` is the tree `o` under `o_root` after the leaf
/// `leaf` went out. If it was the root, nothing is left. Otherwise its parent
/// went out with it and its sibling took the parent's place. No other link and
/// no other leaf changes.
pub open spec fn removed<T: Default>(
    o: Map<NodeId, Node<T>>,
    o_root: NodeId,
    n: Map<NodeId, Node<T>>,
    n_root: NodeId,
    leaf: NodeId,
) -> bool {
    if leaf == o_root {
        &&& n_root == NULL
        &&& n == o.remove(leaf)
    } else {
        let branch = o[leaf].parent;
        let sibling = sibling_of(o, leaf);
        &&& n.dom() == o.dom().remove(leaf).remove(branch)
        &&& n_root == (if branch == o_root {
            sibling
        } else {
            o_root
        })
        &&& n[sibling] == Node { parent: o[branch].parent, ..o[sibling] }
        &&& forall|id: NodeId|
            n.contains_key(id) && id != sibling ==> {
                &&& (#[trigger] n[id]).parent == o[id].parent
                &&& n[id].data == o[id].data
                &&& n[id].left == redirect(o[id].left, branch, sibling)
                &&& n[id].right == redirect(o[id].right, branch, sibling)
                &&& o[id].left == NULL ==> n[id] == o[id]
            }
    }
}


/// The way from the root down to the parent of `id`; empty if `id` has none.
pub open spec fn path_above<T: Default>(o: Map<NodeId, Node<T>>, id: NodeId) -> Seq<NodeId> {
    if o[id].parent == NULL {
        Seq::empty()
    } else {
        root_path(o, o[id].parent)
    }
}

/// The leaves among `nodes`: for each its bounds and what it carries.
pub open spec fn leaves_of<T: Default>(nodes: Map<NodeId, Node<T>>) -> Map<NodeId, (Bounds, T)> {
    Map::new(
        |id: NodeId| nodes.contains_key(id) && nodes[id].left == NULL,
        |id: NodeId| (nodes[id].bounds, nodes[id].data),
    )
}

/// The nodes of the subtree under `id`.
pub open spec fn subtree_set<T: Default>(nodes: Map<NodeId, Node<T>>, id: NodeId) -> Set<NodeId>
    decreases nodes[id].height,
{
    let n = nodes[id];
    if n.left != NULL && nodes[n.left].height < n.height && nodes[n.right].height < n.height {
        subtree_set(nodes, n.left).union(subtree_set(nodes, n.right)).insert(id)
    } else {
        set![id]
    }
}

} // verus!
