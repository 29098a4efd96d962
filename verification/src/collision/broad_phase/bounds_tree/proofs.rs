//! Lemmas about the tree model that the tree's functions rest on.

use super::model::{
    descend, hits, insert_rewired, inserted, is_root_path, leaves_of, links_ok, max_height,
    metrics_ok, off_path_children_lower, path_above, pending_hits, pending_size, redirect,
    refit_node, refit_ready, refit_step, refitted, remove_rewired, removed, root_path,
    same_links, sibling_of, subtree_set, subtree_size, tree_ok,
};
use super::{Node, NodeId, NULL};
use crate::math::{
    lemma_contains_transitive, lemma_intersects_container, lemma_union_commutes,
    lemma_union_contains, Bounds,
};
use vstd::prelude::*;

verus! {

pub proof fn lemma_pending_push<T: Default>(
    nodes: Map<NodeId, Node<T>>,
    stack: Seq<NodeId>,
    id: NodeId,
    query: Bounds,
)
    ensures
        pending_hits(nodes, stack.push(id), query) == hits(nodes, id, query) + pending_hits(
            nodes,
            stack,
            query,
        ),
        pending_size(nodes, stack.push(id)) == subtree_size(nodes, id) + pending_size(nodes, stack),
{
    assert(stack.push(id).drop_last() =~= stack);
}

/// In a tree, the path that `root_path` gives for a node starts at the root,
/// ends at the node, and passes only through branches on the way.
pub proof fn lemma_root_path<T: Default>(nodes: Map<NodeId, Node<T>>, root: NodeId, id: NodeId)
    requires
        tree_ok(nodes, root),
        nodes.contains_key(id),
    ensures
        is_root_path(nodes, root_path(nodes, id)),
        root_path(nodes, id).len() > 0,
        root_path(nodes, id).last() == id,
        root_path(nodes, id)[0] == root,
        forall|i: int|
            0 <= i < root_path(nodes, id).len() - 1 ==> nodes[#[trigger] root_path(nodes, id)[i]].height
                > nodes[id].height && nodes[root_path(nodes, id)[i]].left != NULL,
    decreases u32::MAX - nodes[id].height,
{
    let p = nodes[id].parent;
    assert(links_ok(nodes, root, id));
    if p != NULL {
        assert(nodes.contains_key(p));
        assert(metrics_ok(nodes, p));
        assert(links_ok(nodes, root, p));
        lemma_root_path(nodes, root, p);
        let up = root_path(nodes, p);
        let path = root_path(nodes, id);
        assert(path == up.push(id));
        assert forall|i: int| 0 <= i < path.len() - 1 implies nodes[#[trigger] path[i]].height
            > nodes[id].height && nodes[path[i]].left != NULL by {
            assert(path[i] == up[i]);
        }
        assert forall|i: int, j: int| 0 <= i < path.len() && 0 <= j < path.len() && i != j implies path[i]
            != path[j] by {
            if i < up.len() && j < up.len() {
                assert(up[i] == path[i] && up[j] == path[j]);
            }
        }
        assert forall|i: int, j: int| 0 <= i && j == i + 1 && j < path.len() implies nodes[#[trigger] path[j]].parent
            == #[trigger] path[i] && nodes[path[j]].height < nodes[path[i]].height by {
            assert(up[i] == path[i]);
            if j < up.len() {
                assert(up[j] == path[j]);
            }
        }
    }
}

/// A tree whose root is a leaf has no other node.
pub proof fn lemma_single_leaf<T: Default>(nodes: Map<NodeId, Node<T>>, root: NodeId, id: NodeId)
    requires
        tree_ok(nodes, root),
        root != NULL,
        nodes[root].left == NULL,
        nodes.contains_key(id),
    ensures
        id == root,
{
    lemma_root_path(nodes, root, id);
    let path = root_path(nodes, id);
    if path.len() > 1 {
        assert(nodes[path[0]].left != NULL);
    }
}

/// Going up a root path from its end, every node holds the bounds of the end
/// node, and its hits hold the end node if that is a leaf meeting the query.
pub proof fn lemma_hits_along_path<T: Default>(
    nodes: Map<NodeId, Node<T>>,
    root: NodeId,
    path: Seq<NodeId>,
    i: int,
    query: Bounds,
)
    requires
        tree_ok(nodes, root),
        is_root_path(nodes, path),
        0 <= i < path.len(),
        nodes[path.last()].left == NULL,
        query.intersects(&nodes[path.last()].bounds),
    ensures
        nodes[path[i]].bounds.contains(&nodes[path.last()].bounds),
        hits(nodes, path[i], query).contains(path.last()),
    decreases path.len() - i,
{
    let leaf = path.last();
    let id = path[i];
    assert(nodes.contains_key(id));
    assert(links_ok(nodes, root, id) && metrics_ok(nodes, id));
    if i == path.len() - 1 {
        assert(hits(nodes, id, query) == seq![id]);
        assert(seq![id][0] == id);
    } else {
        let child = path[i + 1];
        assert(nodes.contains_key(child));
        assert(links_ok(nodes, root, child));
        lemma_hits_along_path(nodes, root, path, i + 1, query);
        let n = nodes[id];
        assert(n.left == child || n.right == child);
        lemma_union_contains(nodes[n.left].bounds, nodes[n.right].bounds);
        lemma_contains_transitive(n.bounds, nodes[child].bounds, nodes[leaf].bounds);
        lemma_intersects_container(query, nodes[leaf].bounds, n.bounds);
        let below = hits(nodes, child, query);
        let k = choose|k: int| 0 <= k < below.len() && below[k] == leaf;
        let first = hits(nodes, n.right, query);
        let second = hits(nodes, n.left, query);
        assert(hits(nodes, id, query) == first + second);
        if n.right == child {
            assert((first + second)[k] == leaf);
        } else {
            assert((first + second)[first.len() + k] == leaf);
        }
    }
}


/// One step of the recomputation: node `path[i]` can be recomputed without
/// overflow, and once it is, the step below it is reached.
pub proof fn lemma_refit_step<T: Default>(
    o: Map<NodeId, Node<T>>,
    m: Map<NodeId, Node<T>>,
    root: NodeId,
    start: NodeId,
    path: Seq<NodeId>,
    slack: int,
    i: int,
)
    requires
        slack == 0 || slack == 1,
        refit_ready(o, root, start, path, slack),
        0 <= i < path.len(),
        refit_step(o, m, path, slack, i),
    ensures
        path[i] != NULL,
        m.contains_key(path[i]),
        m[path[i]].left != NULL,
        m.contains_key(m[path[i]].left),
        m.contains_key(m[path[i]].right),
        1 + max_height(m[m[path[i]].left].height, m[m[path[i]].right].height) <= u32::MAX,
        m[path[i]].parent == (if i > 0 {
            path[i - 1]
        } else {
            NULL
        }),
        refit_step(o, m.insert(path[i], refit_node(m, path[i])), path, slack, i - 1),
{
    reveal(refit_ready);
    reveal(refit_step);
    let x = path[i];
    let l = o[x].left;
    let r = o[x].right;
    assert(o.contains_key(x));
    assert(links_ok(o, root, x));
    assert(m[x] == o[x]);
    assert(o.contains_key(l) && o.contains_key(r));
    assert(links_ok(o, root, l));
    assert(links_ok(o, root, r));
    // A child of `x` on the path can only be the next node of the path.
    assert forall|k: int| 0 <= k < path.len() && (#[trigger] path[k] == l || path[k] == r) implies k
        == i + 1 by {
        if k == 0 {
            assert(o[path[0]].parent == NULL);
        } else {
            assert(o[path[k]].parent == path[k - 1]);
            assert(path[k - 1] == path[i]);
        }
    }
    assert(l != x && r != x);
    // Heights of the children, as they stand now.
    assert(m[l].height + 1 <= o[x].height + slack && m[r].height + 1 <= o[x].height + slack) by {
        if i == path.len() - 1 {
            assert(!path.contains(l));
            assert(!path.contains(r));
            assert(m[l] == o[l] && m[r] == o[r]);
        } else {
            assert(off_path_children_lower(o, path, i));
            assert(o[path[i + 1]].parent == path[i]);
            assert(o[path[i + 1]].height < o[path[i]].height);
            if l == path[i + 1] {
                assert(m[path[i + 1]].height <= o[path[i + 1]].height + slack);
            } else {
                assert(!path.contains(l));
                assert(m[l] == o[l]);
            }
            if r == path[i + 1] {
                assert(m[path[i + 1]].height <= o[path[i + 1]].height + slack);
            } else {
                assert(!path.contains(r));
                assert(m[r] == o[r]);
            }
        }
    }
    assert(o[x].height + slack <= u32::MAX) by {
        if i > 0 {
            assert(o[path[i]].height < o[path[i - 1]].height);
        }
    }
    if i > 0 {
        assert(o[path[i]].parent == path[i - 1]);
    } else {
        assert(o[path[0]].parent == NULL);
    }
    let m2 = m.insert(x, refit_node(m, x));
    assert(m2.dom() =~= o.dom());
    assert(same_links(m[x], o[x]));
    assert forall|id: NodeId| o.contains_key(id) implies same_links(#[trigger] m2[id], o[id]) by {
        assert(same_links(m[id], o[id]));
    }
    assert forall|id: NodeId| o.contains_key(id) && !path.contains(id) implies #[trigger] m2[id]
        == o[id] by {
        assert(m[id] == o[id]);
        assert(path[i] == x);
    }
    assert forall|j: int| 0 <= j <= i - 1 && j < path.len() implies m2[#[trigger] path[j]]
        == o[path[j]] by {
        assert(m[path[j]] == o[path[j]]);
    }
    assert forall|j: int| i - 1 < j < path.len() implies metrics_ok(m2, #[trigger] path[j]) by {
        let y = path[j];
        if j == i {
            assert(m2[l] == m[l] && m2[r] == m[r]);
        } else {
            assert(metrics_ok(m, y));
            assert(o.contains_key(y));
            assert(links_ok(o, root, y));
            assert(same_links(m[y], o[y]));
            // `x` is not a child of `y`: its parent comes before it on the path.
            if o[y].left == x || o[y].right == x {
                assert(o[x].parent == y);
                if i > 0 {
                    assert(path[i - 1] == path[j]);
                }
            }
        }
    }
    assert forall|j: int| i - 1 < j < path.len() implies m2[#[trigger] path[j]].height
        <= o[path[j]].height + slack by {
        if j != i {
            assert(m[path[j]].height <= o[path[j]].height + slack);
        }
    }
}

/// The recomputation starts at the end of the path with nothing changed.
pub proof fn lemma_refit_start<T: Default>(
    o: Map<NodeId, Node<T>>,
    root: NodeId,
    start: NodeId,
    path: Seq<NodeId>,
    slack: int,
)
    requires
        refit_ready(o, root, start, path, slack),
    ensures
        refit_step(o, o, path, slack, path.len() - 1),
        start == (if path.len() > 0 {
            path[path.len() - 1]
        } else {
            NULL
        }),
{
    reveal(refit_ready);
    reveal(refit_step);
}

/// When the recomputation has passed the root, the nodes form a tree again.
pub proof fn lemma_refit_done<T: Default>(
    o: Map<NodeId, Node<T>>,
    m: Map<NodeId, Node<T>>,
    root: NodeId,
    start: NodeId,
    path: Seq<NodeId>,
    slack: int,
    i: int,
)
    requires
        refit_ready(o, root, start, path, slack),
        refit_step(o, m, path, slack, i),
        -1 <= i < path.len(),
        i >= 0 ==> path[i] == NULL,
    ensures
        tree_ok(m, root),
        refitted(o, m, path, slack),
{
    reveal(refit_ready);
    reveal(refit_step);
    if i >= 0 {
        assert(o.contains_key(path[i]));
        assert(links_ok(o, root, path[i]));
    }
    assert forall|id: NodeId| m.contains_key(id) implies #[trigger] links_ok(m, root, id) by {
        assert(links_ok(o, root, id));
        assert(same_links(m[id], o[id]));
        let n = o[id];
        if n.parent != NULL {
            assert(same_links(m[n.parent], o[n.parent]));
        }
        if n.left != NULL {
            assert(same_links(m[n.left], o[n.left]));
            assert(same_links(m[n.right], o[n.right]));
        }
    }
    assert forall|id: NodeId| m.contains_key(id) implies #[trigger] metrics_ok(m, id) by {
        if path.contains(id) {
            let j = choose|j: int| 0 <= j < path.len() && path[j] == id;
            assert(metrics_ok(m, path[j]));
        } else {
            assert(metrics_ok(o, id));
            assert(links_ok(o, root, id));
            assert(m[id] == o[id]);
            let n = o[id];
            if n.left != NULL {
                // A child on the path would put `id` on the path as well.
                assert forall|c: NodeId| c == n.left || c == n.right implies !path.contains(c) by {
                    if path.contains(c) {
                        let k = choose|k: int| 0 <= k < path.len() && path[k] == c;
                        if k == 0 {
                            assert(o[path[0]].parent == NULL);
                        } else {
                            assert(o[path[k]].parent == path[k - 1]);
                            assert(path[k - 1] == id);
                        }
                    }
                }
                assert(m[n.left] == o[n.left]);
                assert(m[n.right] == o[n.right]);
            }
        }
    }
}


/// After the links of an insertion are set, heights and bounds can be
/// recomputed from the former parent of the sibling upwards.
pub proof fn lemma_insert_rewired<T: Default>(
    o: Map<NodeId, Node<T>>,
    o_root: NodeId,
    m: Map<NodeId, Node<T>>,
    m_root: NodeId,
    leaf: NodeId,
    branch: NodeId,
    sibling: NodeId,
    bounds: Bounds,
    data: T,
)
    requires
        tree_ok(o, o_root),
        o_root != NULL,
        o[o_root].height < u32::MAX,
        leaf != NULL,
        branch != NULL,
        leaf != branch,
        !o.contains_key(leaf),
        !o.contains_key(branch),
        o.contains_key(sibling),
        o[sibling].left == NULL,
        insert_rewired(o, m, leaf, branch, sibling, bounds, data),
        m_root == (if sibling == o_root {
            branch
        } else {
            o_root
        }),
    ensures
        refit_ready(m, m_root, o[sibling].parent, path_above(o, sibling), 1),
{
    reveal(refit_ready);
    let g = o[sibling].parent;
    let path = path_above(o, sibling);
    assert(links_ok(o, o_root, sibling));
    assert(metrics_ok(o, sibling));
    lemma_union_commutes(bounds, o[sibling].bounds);
    if g != NULL {
        lemma_root_path(o, o_root, g);
        assert(links_ok(o, o_root, g));
        assert(metrics_ok(o, g));
        assert(o[g].left != NULL);
        assert(path.contains(g)) by {
            assert(path[path.len() - 1] == g);
        }
        assert forall|i: int| 0 <= i < path.len() implies o.contains_key(#[trigger] path[i])
            && o[path[i]].left != NULL by {}
        assert forall|i: int| 0 <= i < path.len() implies m.contains_key(#[trigger] path[i])
            && m[path[i]].left != NULL && m[path[i]].parent == o[path[i]].parent
            && m[path[i]].height == o[path[i]].height by {
            assert(o.contains_key(path[i]) && o[path[i]].left != NULL);
        }
        assert forall|i: int| 0 <= i < path.len() - 1 implies #[trigger] off_path_children_lower(
            m,
            path,
            i,
        ) by {
            let x = path[i];
            assert(o.contains_key(x) && o[x].left != NULL);
            assert(x != g);
            assert(m[x] == o[x]);
            assert(links_ok(o, o_root, x));
            assert(metrics_ok(o, x));
            let l = o[x].left;
            let r = o[x].right;
            assert(o[path[path.len() - 1]].parent == path[path.len() - 2]);
            if l != path[i + 1] {
                assert(l != sibling);
                if l == g {
                    assert(path[path.len() - 2] == path[i]);
                }
                assert(m[l] == o[l]);
            }
            if r != path[i + 1] {
                assert(r != sibling);
                if r == g {
                    assert(path[path.len() - 2] == path[i]);
                }
                assert(m[r] == o[r]);
            }
        }
        // The children of `g`: the new branch and the child that stayed.
        let other = if o[g].left == sibling {
            o[g].right
        } else {
            o[g].left
        };
        assert(o.contains_key(other));
        assert(metrics_ok(o, other));
        assert(other != sibling && other != g);
        assert(m[other] == o[other]);
    }
    assert forall|id: NodeId| m.contains_key(id) implies #[trigger] links_ok(m, m_root, id) by {
        if id == leaf || id == branch || id == sibling {
        } else {
            assert(o.contains_key(id));
            assert(links_ok(o, o_root, id));
            assert(metrics_ok(o, id));
            let n = o[id];
            if n.parent != NULL {
                assert(links_ok(o, o_root, n.parent));
                assert(metrics_ok(o, n.parent));
                assert(n.parent != sibling);
                assert(n.parent != id);
            }
            if n.left != NULL {
                assert(links_ok(o, o_root, n.left));
                assert(links_ok(o, o_root, n.right));
                assert(n.left != id && n.right != id);
                if id != g {
                    assert(n.left != sibling && n.right != sibling);
                }
            }
        }
    }
    assert forall|id: NodeId| m.contains_key(id) && !path.contains(id) implies #[trigger] metrics_ok(
        m,
        id,
    ) by {
        if id == leaf || id == branch || id == sibling {
        } else {
            assert(o.contains_key(id));
            assert(links_ok(o, o_root, id));
            assert(metrics_ok(o, id));
            assert(id != g);
            assert(m[id] == o[id]);
            let n = o[id];
            if n.left != NULL {
                assert(n.left != sibling && n.right != sibling);
                if n.left == g || n.right == g {
                    assert(o[g].parent == id);
                    assert(o[path[path.len() - 1]].parent == path[path.len() - 2]);
                    assert(path[path.len() - 2] == id);
                }
                assert(m[n.left] == o[n.left]);
                assert(m[n.right] == o[n.right]);
            }
        }
    }
}

/// What an insertion has done once heights and bounds are recomputed.
pub proof fn lemma_insert_done<T: Default>(
    o: Map<NodeId, Node<T>>,
    o_root: NodeId,
    m: Map<NodeId, Node<T>>,
    n: Map<NodeId, Node<T>>,
    m_root: NodeId,
    leaf: NodeId,
    branch: NodeId,
    sibling: NodeId,
    bounds: Bounds,
    data: T,
)
    requires
        tree_ok(o, o_root),
        o_root != NULL,
        leaf != NULL,
        branch != NULL,
        leaf != branch,
        !o.contains_key(leaf),
        !o.contains_key(branch),
        o.contains_key(sibling),
        o[sibling].left == NULL,
        sibling == descend(o, o_root, bounds),
        insert_rewired(o, m, leaf, branch, sibling, bounds, data),
        m_root == (if sibling == o_root {
            branch
        } else {
            o_root
        }),
        refitted(m, n, path_above(o, sibling), 1),
    ensures
        inserted(o, o_root, n, m_root, bounds, data, leaf, branch),
        n[m_root].height <= o[o_root].height + 1,
        leaves_of(n) == leaves_of(o).insert(leaf, (bounds, data)),
{
    let g = o[sibling].parent;
    let path = path_above(o, sibling);
    assert(links_ok(o, o_root, sibling));
    assert(metrics_ok(o, sibling));
    if g != NULL {
        lemma_root_path(o, o_root, g);
        assert(links_ok(o, o_root, g));
        assert(o[g].left != NULL);
        assert forall|i: int| 0 <= i < path.len() implies o.contains_key(#[trigger] path[i])
            && o[path[i]].left != NULL by {}
        assert(path[0] == o_root);
        assert(n[path[0]].height <= m[path[0]].height + 1);
    }
    assert forall|id: NodeId| path.contains(id) implies o.contains_key(id) && o[id].left != NULL by {
        let k = choose|k: int| 0 <= k < path.len() && path[k] == id;
        assert(o.contains_key(path[k]) && o[path[k]].left != NULL);
    }
    assert(!path.contains(leaf) && !path.contains(branch) && !path.contains(sibling));
    assert(n[leaf] == m[leaf] && n[sibling] == m[sibling] && n[branch] == m[branch]);
    assert forall|id: NodeId| o.contains_key(id) && id != sibling implies ({
        &&& (#[trigger] n[id]).parent == o[id].parent
        &&& n[id].data == o[id].data
        &&& n[id].left == redirect(o[id].left, sibling, branch)
        &&& n[id].right == redirect(o[id].right, sibling, branch)
        &&& o[id].left == NULL ==> n[id] == o[id]
    }) by {
        assert(m.contains_key(id));
        assert(same_links(n[id], m[id]));
        assert(links_ok(o, o_root, id));
        if id != g {
            assert(m[id] == o[id]);
            if o[id].left != NULL {
                assert(o[id].left != sibling && o[id].right != sibling);
            }
        }
        if o[id].left == NULL {
            assert(!path.contains(id));
            assert(n[id] == m[id]);
        }
    }
    assert(leaves_of(n) =~= leaves_of(o).insert(leaf, (bounds, data))) by {
        assert forall|id: NodeId| #[trigger]
            leaves_of(n).contains_key(id) == leaves_of(o).insert(leaf, (bounds, data)).contains_key(
                id,
            ) by {
            if o.contains_key(id) && id != sibling {
                assert(n[id].left == redirect(o[id].left, sibling, branch));
            }
        }
        assert forall|id: NodeId| leaves_of(n).contains_key(id) implies #[trigger] leaves_of(n)[id]
            == leaves_of(o).insert(leaf, (bounds, data))[id] by {
            if o.contains_key(id) && id != sibling {
                assert(n[id].left == redirect(o[id].left, sibling, branch));
            }
        }
    }
}

/// After the links of a removal are set, heights and bounds can be recomputed
/// from the former grandparent of the leaf upwards.
pub proof fn lemma_remove_rewired<T: Default>(
    o: Map<NodeId, Node<T>>,
    o_root: NodeId,
    m: Map<NodeId, Node<T>>,
    m_root: NodeId,
    leaf: NodeId,
)
    requires
        tree_ok(o, o_root),
        o.contains_key(leaf),
        o[leaf].left == NULL,
        leaf != o_root,
        remove_rewired(o, m, leaf),
        m_root == (if o[leaf].parent == o_root {
            sibling_of(o, leaf)
        } else {
            o_root
        }),
    ensures
        refit_ready(m, m_root, o[o[leaf].parent].parent, path_above(o, o[leaf].parent), 0),
{
    reveal(refit_ready);
    let branch = o[leaf].parent;
    let sibling = sibling_of(o, leaf);
    let g = o[branch].parent;
    let path = path_above(o, branch);
    assert(links_ok(o, o_root, leaf));
    assert(metrics_ok(o, leaf));
    assert(links_ok(o, o_root, branch));
    assert(metrics_ok(o, branch));
    assert(links_ok(o, o_root, sibling));
    assert(metrics_ok(o, sibling));
    assert(sibling != leaf && sibling != branch && o[sibling].parent == branch);
    if g != NULL {
        lemma_root_path(o, o_root, g);
        assert(links_ok(o, o_root, g));
        assert(metrics_ok(o, g));
        assert(o[g].left != NULL);
        assert(g != sibling && g != leaf && g != branch);
        assert(path.contains(g)) by {
            assert(path[path.len() - 1] == g);
        }
        assert forall|i: int| 0 <= i < path.len() implies o.contains_key(#[trigger] path[i])
            && o[path[i]].left != NULL && o[path[i]].height >= o[g].height by {}
        assert forall|i: int| 0 <= i < path.len() implies m.contains_key(#[trigger] path[i])
            && m[path[i]].left != NULL && m[path[i]].parent == o[path[i]].parent
            && m[path[i]].height == o[path[i]].height by {
            assert(o.contains_key(path[i]) && o[path[i]].left != NULL && o[path[i]].height
                >= o[g].height);
        }
        assert forall|i: int| 0 <= i < path.len() - 1 implies #[trigger] off_path_children_lower(
            m,
            path,
            i,
        ) by {
            let x = path[i];
            assert(o.contains_key(x) && o[x].left != NULL && o[x].height >= o[g].height);
            assert(x != g);
            assert(m[x] == o[x]);
            assert(links_ok(o, o_root, x));
            assert(metrics_ok(o, x));
            let l = o[x].left;
            let r = o[x].right;
            assert(o[path[path.len() - 1]].parent == path[path.len() - 2]);
            if l != path[i + 1] {
                if l == g {
                    assert(path[path.len() - 2] == path[i]);
                }
                assert(m[l] == o[l]);
            }
            if r != path[i + 1] {
                if r == g {
                    assert(path[path.len() - 2] == path[i]);
                }
                assert(m[r] == o[r]);
            }
        }
        let other = if o[g].left == branch {
            o[g].right
        } else {
            o[g].left
        };
        assert(o.contains_key(other));
        assert(links_ok(o, o_root, other));
        assert(metrics_ok(o, other));
        assert(other != sibling && other != g && other != branch && other != leaf);
        assert(m[other] == o[other]);
    }
    assert forall|id: NodeId| m.contains_key(id) implies #[trigger] links_ok(m, m_root, id) by {
        assert(o.contains_key(id));
        assert(links_ok(o, o_root, id));
        assert(metrics_ok(o, id));
        let n = o[id];
        if n.parent != NULL {
            assert(links_ok(o, o_root, n.parent));
            assert(metrics_ok(o, n.parent));
            assert(n.parent != leaf);
            assert(n.parent != id);
        }
        if n.left != NULL {
            assert(links_ok(o, o_root, n.left));
            assert(links_ok(o, o_root, n.right));
            assert(metrics_ok(o, n.left));
            assert(metrics_ok(o, n.right));
            assert(n.left != id && n.right != id);
        }
    }
    assert forall|id: NodeId| m.contains_key(id) && !path.contains(id) implies #[trigger] metrics_ok(
        m,
        id,
    ) by {
        assert(o.contains_key(id));
        assert(links_ok(o, o_root, id));
        assert(metrics_ok(o, id));
        assert(id != g);
        let n = o[id];
        if n.left != NULL {
            assert(links_ok(o, o_root, n.left));
            assert(links_ok(o, o_root, n.right));
            assert(metrics_ok(o, n.left));
            assert(metrics_ok(o, n.right));
            if n.left == g || n.right == g {
                assert(o[g].parent == id);
                if id != sibling {
                    assert(o[path[path.len() - 1]].parent == path[path.len() - 2]);
                    assert(path[path.len() - 2] == id);
                }
            }
            assert(n.left != sibling && n.right != sibling);
            assert(m[n.left] == o[n.left]);
            assert(m[n.right] == o[n.right]);
        }
    }
}

/// What a removal has done once heights and bounds are recomputed.
pub proof fn lemma_remove_done<T: Default>(
    o: Map<NodeId, Node<T>>,
    o_root: NodeId,
    m: Map<NodeId, Node<T>>,
    n: Map<NodeId, Node<T>>,
    m_root: NodeId,
    leaf: NodeId,
)
    requires
        tree_ok(o, o_root),
        o.contains_key(leaf),
        o[leaf].left == NULL,
        leaf != o_root,
        remove_rewired(o, m, leaf),
        m_root == (if o[leaf].parent == o_root {
            sibling_of(o, leaf)
        } else {
            o_root
        }),
        refitted(m, n, path_above(o, o[leaf].parent), 0),
    ensures
        removed(o, o_root, n, m_root, leaf),
        n[m_root].height <= o[o_root].height,
        leaves_of(n) == leaves_of(o).remove(leaf),
{
    let branch = o[leaf].parent;
    let sibling = sibling_of(o, leaf);
    let g = o[branch].parent;
    let path = path_above(o, branch);
    assert(links_ok(o, o_root, leaf));
    assert(links_ok(o, o_root, branch));
    assert(metrics_ok(o, branch));
    assert(links_ok(o, o_root, sibling));
    assert(metrics_ok(o, sibling));
    assert(sibling != leaf && sibling != branch && o[sibling].parent == branch);
    if g != NULL {
        lemma_root_path(o, o_root, g);
        assert(links_ok(o, o_root, g));
        assert(metrics_ok(o, g));
        assert(o[g].left != NULL);
        assert forall|i: int| 0 <= i < path.len() implies o.contains_key(#[trigger] path[i])
            && o[path[i]].left != NULL && o[path[i]].height >= o[g].height by {}
        assert(path[0] == o_root);
        assert(n[path[0]].height <= m[path[0]].height + 0);
    }
    assert forall|id: NodeId| path.contains(id) implies o.contains_key(id) && o[id].left != NULL
        && o[id].height >= o[g].height && g != NULL by {
        let k = choose|k: int| 0 <= k < path.len() && path[k] == id;
        assert(o.contains_key(path[k]) && o[path[k]].left != NULL && o[path[k]].height
            >= o[g].height);
    }
    assert(!path.contains(sibling));
    assert(n[sibling] == m[sibling]);
    assert forall|id: NodeId| n.contains_key(id) && id != sibling implies ({
        &&& (#[trigger] n[id]).parent == o[id].parent
        &&& n[id].data == o[id].data
        &&& n[id].left == redirect(o[id].left, branch, sibling)
        &&& n[id].right == redirect(o[id].right, branch, sibling)
        &&& o[id].left == NULL ==> n[id] == o[id]
    }) by {
        assert(m.contains_key(id));
        assert(o.contains_key(id));
        assert(same_links(n[id], m[id]));
        assert(links_ok(o, o_root, id));
        if id != g {
            assert(m[id] == o[id]);
            if o[id].left != NULL {
                assert(o[id].left != branch && o[id].right != branch);
            }
        }
        if o[id].left == NULL {
            assert(!path.contains(id));
            assert(n[id] == m[id]);
        }
    }
    assert(leaves_of(n) =~= leaves_of(o).remove(leaf)) by {
        assert forall|id: NodeId| #[trigger]
            leaves_of(n).contains_key(id) == leaves_of(o).remove(leaf).contains_key(id) by {
            if n.contains_key(id) && id != sibling {
                assert(n[id].left == redirect(o[id].left, branch, sibling));
            }
        }
        assert forall|id: NodeId| leaves_of(n).contains_key(id) implies #[trigger] leaves_of(n)[id]
            == leaves_of(o).remove(leaf)[id] by {
            if n.contains_key(id) && id != sibling {
                assert(n[id].left == redirect(o[id].left, branch, sibling));
            }
        }
    }
}


/// The descent ends at a leaf of the tree.
pub proof fn lemma_descend_leaf<T: Default>(
    nodes: Map<NodeId, Node<T>>,
    root: NodeId,
    id: NodeId,
    leaf: Bounds,
)
    requires
        tree_ok(nodes, root),
        nodes.contains_key(id),
    ensures
        nodes.contains_key(descend(nodes, id, leaf)),
        nodes[descend(nodes, id, leaf)].left == NULL,
    decreases nodes[id].height,
{
    assert(links_ok(nodes, root, id));
    assert(metrics_ok(nodes, id));
    let n = nodes[id];
    if n.left != NULL {
        lemma_descend_leaf(nodes, root, n.left, leaf);
        lemma_descend_leaf(nodes, root, n.right, leaf);
    }
}

/// Two trees over the same links with the same leaves are the same tree:
/// heights and bounds of the branches follow from the rest.
pub proof fn lemma_same_tree<T: Default>(
    o: Map<NodeId, Node<T>>,
    o_root: NodeId,
    n: Map<NodeId, Node<T>>,
    n_root: NodeId,
    id: NodeId,
)
    requires
        tree_ok(o, o_root),
        tree_ok(n, n_root),
        o.dom() == n.dom(),
        forall|x: NodeId| o.contains_key(x) ==> same_links(#[trigger] n[x], o[x]),
        forall|x: NodeId| o.contains_key(x) && o[x].left == NULL ==> #[trigger] n[x] == o[x],
        o.contains_key(id),
    ensures
        n[id] == o[id],
    decreases o[id].height,
{
    assert(links_ok(o, o_root, id));
    assert(metrics_ok(o, id));
    assert(n.contains_key(id));
    assert(metrics_ok(n, id));
    assert(same_links(n[id], o[id]));
    if o[id].left != NULL {
        lemma_same_tree(o, o_root, n, n_root, o[id].left);
        lemma_same_tree(o, o_root, n, n_root, o[id].right);
    }
}

/// A subtree has more nodes than its root is high, all of them nodes of the
/// tree and none higher than the root of the subtree.
pub proof fn lemma_subtree_set<T: Default>(nodes: Map<NodeId, Node<T>>, root: NodeId, id: NodeId)
    requires
        tree_ok(nodes, root),
        nodes.contains_key(id),
    ensures
        subtree_set(nodes, id).finite(),
        subtree_set(nodes, id).len() >= nodes[id].height + 1,
        forall|x: NodeId| #[trigger]
            subtree_set(nodes, id).contains(x) ==> nodes.contains_key(x) && nodes[x].height
                <= nodes[id].height,
    decreases nodes[id].height,
{
    assert(links_ok(nodes, root, id));
    assert(metrics_ok(nodes, id));
    let n = nodes[id];
    if n.left != NULL {
        lemma_subtree_set(nodes, root, n.left);
        lemma_subtree_set(nodes, root, n.right);
        let a = subtree_set(nodes, n.left);
        let b = subtree_set(nodes, n.right);
        let both = a.union(b);
        assert(!both.contains(id));
        vstd::set_lib::lemma_len_subset(a, both);
        vstd::set_lib::lemma_len_subset(b, both);
    }
}

/// No node is as high as the tree has nodes.
pub proof fn lemma_height_below_count<T: Default>(
    nodes: Map<NodeId, Node<T>>,
    root: NodeId,
    id: NodeId,
)
    requires
        tree_ok(nodes, root),
        nodes.contains_key(id),
        nodes.dom().finite(),
    ensures
        nodes[id].height < nodes.dom().len(),
{
    lemma_subtree_set(nodes, root, id);
    vstd::set_lib::lemma_len_subset(subtree_set(nodes, id), nodes.dom());
}

/// The parent of a node of a subtree, other than the root of the subtree, is
/// in the subtree.
pub proof fn lemma_subtree_parent<T: Default>(
    nodes: Map<NodeId, Node<T>>,
    root: NodeId,
    top: NodeId,
    id: NodeId,
)
    requires
        tree_ok(nodes, root),
        nodes.contains_key(top),
        subtree_set(nodes, top).contains(id),
        id != top,
    ensures
        subtree_set(nodes, top).contains(nodes[id].parent),
    decreases nodes[top].height,
{
    assert(links_ok(nodes, root, top));
    assert(metrics_ok(nodes, top));
    let n = nodes[top];
    if subtree_set(nodes, n.left).contains(id) {
        if id != n.left {
            lemma_subtree_parent(nodes, root, n.left, id);
        }
    } else {
        assert(subtree_set(nodes, n.right).contains(id));
        if id != n.right {
            lemma_subtree_parent(nodes, root, n.right, id);
        }
    }
}

/// The subtrees under the two children of a branch share no node.
pub proof fn lemma_subtrees_disjoint<T: Default>(
    nodes: Map<NodeId, Node<T>>,
    root: NodeId,
    branch: NodeId,
    id: NodeId,
)
    requires
        tree_ok(nodes, root),
        nodes.contains_key(branch),
        nodes[branch].left != NULL,
        subtree_set(nodes, nodes[branch].left).contains(id),
    ensures
        !subtree_set(nodes, nodes[branch].right).contains(id),
    decreases u32::MAX - nodes[id].height,
{
    let l = nodes[branch].left;
    let r = nodes[branch].right;
    assert(links_ok(nodes, root, branch));
    assert(metrics_ok(nodes, branch));
    lemma_subtree_set(nodes, root, l);
    lemma_subtree_set(nodes, root, r);
    if subtree_set(nodes, r).contains(id) {
        if id == l {
            lemma_subtree_parent(nodes, root, r, id);
            assert(subtree_set(nodes, r).contains(branch));
        } else if id == r {
            lemma_subtree_parent(nodes, root, l, id);
            assert(subtree_set(nodes, l).contains(branch));
        } else {
            lemma_subtree_parent(nodes, root, l, id);
            lemma_subtree_parent(nodes, root, r, id);
            let p = nodes[id].parent;
            assert(nodes.contains_key(id));
            assert(links_ok(nodes, root, id));
            assert(nodes.contains_key(p));
            assert(metrics_ok(nodes, p));
            assert(links_ok(nodes, root, p));
            lemma_subtrees_disjoint(nodes, root, branch, p);
        }
    }
}

/// No leaf is among the hits twice, and every hit lies in the subtree that
/// was searched.
pub proof fn lemma_hits_distinct<T: Default>(
    nodes: Map<NodeId, Node<T>>,
    root: NodeId,
    id: NodeId,
    query: Bounds,
)
    requires
        tree_ok(nodes, root),
        nodes.contains_key(id),
    ensures
        hits(nodes, id, query).no_duplicates(),
        forall|i: int|
            0 <= i < hits(nodes, id, query).len() ==> subtree_set(nodes, id).contains(
                #[trigger] hits(nodes, id, query)[i],
            ),
    decreases nodes[id].height,
{
    assert(links_ok(nodes, root, id));
    assert(metrics_ok(nodes, id));
    let n = nodes[id];
    if n.left != NULL && query.intersects(&n.bounds) {
        lemma_hits_distinct(nodes, root, n.left, query);
        lemma_hits_distinct(nodes, root, n.right, query);
        let first = hits(nodes, n.right, query);
        let second = hits(nodes, n.left, query);
        let all = hits(nodes, id, query);
        assert(all == first + second);
        assert forall|i: int| 0 <= i < all.len() implies subtree_set(nodes, id).contains(
            #[trigger] all[i],
        ) by {
            if i < first.len() {
                assert(all[i] == first[i]);
            } else {
                assert(all[i] == second[i - first.len()]);
            }
        }
        assert forall|i: int, j: int| 0 <= i < all.len() && 0 <= j < all.len() && i != j implies all[i]
            != all[j] by {
            if i < first.len() && j < first.len() {
                assert(all[i] == first[i] && all[j] == first[j]);
            } else if i >= first.len() && j >= first.len() {
                assert(all[i] == second[i - first.len()] && all[j] == second[j - first.len()]);
            } else if i < first.len() {
                assert(all[i] == first[i] && all[j] == second[j - first.len()]);
                lemma_subtrees_disjoint(nodes, root, id, all[j]);
            } else {
                assert(all[j] == first[j] && all[i] == second[i - first.len()]);
                lemma_subtrees_disjoint(nodes, root, id, all[i]);
            }
        }
    } else if query.intersects(&n.bounds) {
        assert(hits(nodes, id, query) == seq![id]);
    }
}

} // verus!
