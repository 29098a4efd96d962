//! A bounding-volume tree in an arena, and the broad phase built on it.
//!
//! Leaves carry the fattened boxes of bodies; each branch holds the union of
//! its two children. A leaf goes in beside the leaf that a greedy descent by
//! perimeter growth ends at; no rotation rebalances the tree.

pub mod laws;
pub mod model;
pub mod proofs;

use crate::collision::broad_phase::{extended_by, lemma_extended_step, BroadPhase, ProxyId};
use crate::math::{lemma_expand_contains, Bounds, Vec2};
use crate::util::pool::{Pool, PoolId};
use crate::world::{
    body_with_id, find_body, has_body, ordered_ids, Bodies, Body, BodyId, BodyPair, ConstraintsMap,
};
use model::{
    descend, hits, insert_rewired, inserted, leaves_of, links_ok, metrics_ok, path_above,
    pending_hits, pending_size, refit_node, refit_ready, refit_step, refitted, remove_rewired,
    removed, tree_ok,
};
use proofs::{
    lemma_height_below_count, lemma_hits_distinct, lemma_insert_done, lemma_insert_rewired,
    lemma_pending_push,
    lemma_refit_done,
    lemma_refit_start, lemma_refit_step, lemma_remove_done, lemma_remove_rewired,
    lemma_single_leaf,
};
use vstd::prelude::*;

verus! {

/// Index of a tree node in the arena.
pub type NodeId = PoolId;

/// The id that stands for "no node".
pub const NULL: NodeId = usize::MAX;

/// A node of the tree: a leaf that carries `data`, or a branch over two
/// children.
#[derive(Clone)]
pub struct Node<T: Default> {
    pub bounds: Bounds,
    pub parent: NodeId,
    pub left: NodeId,
    pub right: NodeId,
    pub data: T,
    pub height: u32,
}

impl<T: Default> Default for Node<T> {
    fn default() -> (node: Node<T>)
        ensures
            node.bounds == Bounds::new(Vec2::zero(), Vec2::zero()),
            node.parent == NULL,
            node.left == NULL,
            node.right == NULL,
            node.height == 0,
            call_ensures(T::default, (), node.data),
    {
        Node {
            bounds: Bounds::new(Vec2::zero(), Vec2::zero()),
            parent: NULL,
            left: NULL,
            right: NULL,
            data: T::default(),
            height: 0,
        }
    }
}

impl<T: Default> Node<T> {
    pub open spec fn spec_new(bounds: Bounds, data: T) -> Node<T> {
        Node { bounds, parent: NULL, left: NULL, right: NULL, data, height: 0 }
    }

    /// A leaf that is not linked to anything yet.
    #[verifier::when_used_as_spec(spec_new)]
    pub fn new(bounds: Bounds, data: T) -> (node: Node<T>)
        ensures
            node == Node::spec_new(bounds, data),
    {
        Node { bounds, parent: NULL, left: NULL, right: NULL, data, height: 0 }
    }

    pub open spec fn spec_is_leaf(&self) -> bool {
        self.left == NULL
    }

    #[verifier::when_used_as_spec(spec_is_leaf)]
    pub fn is_leaf(&self) -> (b: bool)
        ensures
            b == self.spec_is_leaf(),
    {
        self.left == NULL
    }
}

/// A binary tree of bounding boxes, kept in an arena and linked by index.
pub struct BoundsTree<T: Default> {
    pool: Pool<Node<T>>,
    pub root_id: NodeId,
}

impl<T: Default> BoundsTree<T> {
    /// The nodes in use, by id.
    pub closed spec fn nodes(&self) -> Map<NodeId, Node<T>> {
        self.pool@
    }

    /// The id of the root, null for an empty tree: what `root_id` holds.
    pub closed spec fn root(&self) -> NodeId {
        self.root_id
    }

    /// The freed arena slots, the one to be reused next at the end.
    pub closed spec fn free_ids(&self) -> Seq<NodeId> {
        self.pool.free_list()
    }

    /// How many arena slots exist, in use or freed.
    pub closed spec fn slot_count(&self) -> nat {
        self.pool.slot_count()
    }

    /// The arena is consistent, whatever the nodes hold.
    pub closed spec fn arena_wf(&self) -> bool {
        self.pool.wf()
    }

    /// The arena is consistent and has no more slots than a height can count,
    /// and the nodes form a tree under `root_id` in which every branch has the
    /// union of its children's bounds and one more than the greater of their
    /// heights.
    pub open spec fn wf(&self) -> bool {
        &&& self.arena_wf()
        &&& self.slot_count() <= u32::MAX
        &&& tree_ok(self.nodes(), self.root())
    }

    /// The leaves: for each its bounds and what it carries.
    pub open spec fn leaves(&self) -> Map<NodeId, (Bounds, T)> {
        leaves_of(self.nodes())
    }

    /// The id that the next new node gets.
    pub open spec fn next_id(&self) -> NodeId {
        if self.free_ids().len() > 0 {
            self.free_ids().last()
        } else {
            self.slot_count() as usize
        }
    }

    /// The id that the new node after the next gets.
    pub open spec fn second_next_id(&self) -> NodeId {
        if self.free_ids().len() > 1 {
            self.free_ids()[self.free_ids().len() - 2]
        } else if self.free_ids().len() == 1 {
            self.slot_count() as usize
        } else {
            (self.slot_count() + 1) as usize
        }
    }

    /// How many nodes an insertion adds: the leaf, and a branch unless the
    /// tree is empty.
    pub open spec fn nodes_per_insert(&self) -> nat {
        if self.root() == NULL {
            1
        } else {
            2
        }
    }

    /// An insertion is possible: the arena can take the new nodes without the
    /// slot count leaving the range of `u32`, in which heights are counted.
    pub open spec fn can_grow(&self) -> bool {
        self.free_ids().len() + (u32::MAX - self.slot_count()) >= self.nodes_per_insert()
    }

    /// The freed slots that are left once `count` nodes have been added.
    pub open spec fn free_ids_after(&self, count: nat) -> Seq<NodeId> {
        if self.free_ids().len() >= count {
            self.free_ids().take(self.free_ids().len() - count)
        } else {
            Seq::empty()
        }
    }

    /// The slot count once `count` nodes have been added.
    pub open spec fn slot_count_after(&self, count: nat) -> nat {
        if self.free_ids().len() >= count {
            self.slot_count()
        } else {
            (self.slot_count() + count - self.free_ids().len()) as nat
        }
    }

    /// The leaves whose bounds meet `query`, in the order in which `query`
    /// visits them.
    pub open spec fn hits(&self, query: Bounds) -> Seq<NodeId> {
        if self.root() == NULL {
            Seq::empty()
        } else {
            hits(self.nodes(), self.root(), query)
        }
    }

    /// Height of the root; 0 for an empty tree.
    pub open spec fn height(&self) -> int {
        if self.root() == NULL {
            0
        } else {
            self.nodes()[self.root()].height as int
        }
    }

    /// Every arena slot holds a node or is freed, and no node is as high as
    /// the tree has nodes: heights stay below the slot count.
    pub proof fn lemma_height_below_slot_count(&self, id: NodeId)
        requires
            self.wf(),
            self.nodes().contains_key(id),
        ensures
            self.nodes().dom().finite(),
            self.nodes().dom().len() + self.free_ids().len() == self.slot_count(),
            self.nodes()[id].height < self.slot_count(),
    {
        self.pool.lemma_count();
        lemma_height_below_count(self.nodes(), self.root(), id);
    }

    /// The id of the root; `NULL` for an empty tree.
    pub fn root_id(&self) -> (id: NodeId)
        ensures
            id == self.root(),
    {
        self.root_id
    }

    pub fn new() -> (tree: BoundsTree<T>)
        ensures
            tree.wf(),
            tree.root() == NULL,
            tree.nodes() == Map::<NodeId, Node<T>>::empty(),
            tree.free_ids() == Seq::<NodeId>::empty(),
            tree.slot_count() == 0,
    {
        let pool = Pool::default();
        BoundsTree { root_id: NULL, pool }
    }

    pub fn get_root(&self) -> (node: &Node<T>)
        requires
            self.arena_wf(),
            self.nodes().contains_key(self.root()),
        ensures
            *node == self.nodes()[self.root()],
    {
        self.get_node(self.root_id)
    }

    pub fn get_root_mut(&mut self) -> (node: &mut Node<T>)
        requires
            old(self).arena_wf(),
            old(self).nodes().contains_key(old(self).root()),
        ensures
            *node == old(self).nodes()[old(self).root()],
            final(self).nodes() == old(self).nodes().insert(old(self).root(), *final(node)),
            final(self).root() == old(self).root(),
            final(self).arena_wf(),
            final(self).free_ids() == old(self).free_ids(),
            final(self).slot_count() == old(self).slot_count(),
    {
        let root_id = self.root_id;
        self.get_node_mut(root_id)
    }

    pub fn get_node(&self, node_id: NodeId) -> (node: &Node<T>)
        requires
            self.arena_wf(),
            self.nodes().contains_key(node_id),
        ensures
            *node == self.nodes()[node_id],
    {
        self.pool.get(node_id)
    }

    pub fn get_node_mut(&mut self, node_id: NodeId) -> (node: &mut Node<T>)
        requires
            old(self).arena_wf(),
            old(self).nodes().contains_key(node_id),
        ensures
            *node == old(self).nodes()[node_id],
            final(self).nodes() == old(self).nodes().insert(node_id, *final(node)),
            final(self).root() == old(self).root(),
            final(self).arena_wf(),
            final(self).free_ids() == old(self).free_ids(),
            final(self).slot_count() == old(self).slot_count(),
    {
        self.pool.get_mut(node_id)
    }

    /// Whether `node_id` names a node in use.
    pub fn contains(&self, node_id: NodeId) -> (b: bool)
        requires
            self.arena_wf(),
        ensures
            b == self.nodes().contains_key(node_id),
    {
        self.pool.contains(node_id)
    }

    /// Walks from `start` up to the root and recomputes height and bounds of
    /// each node on the way from those of its children.
    fn update_ancestors(
        &mut self,
        start: NodeId,
        Ghost(path): Ghost<Seq<NodeId>>,
        Ghost(slack): Ghost<int>,
    )
        requires
            old(self).arena_wf(),
            slack == 0 || slack == 1,
            refit_ready(old(self).nodes(), old(self).root(), start, path, slack),
        ensures
            final(self).arena_wf(),
            final(self).root() == old(self).root(),
            final(self).free_ids() == old(self).free_ids(),
            final(self).slot_count() == old(self).slot_count(),
            tree_ok(final(self).nodes(), final(self).root()),
            refitted(old(self).nodes(), final(self).nodes(), path, slack),
    {
        let ghost o = self.nodes();
        let ghost root = self.root_id;
        let mut node_id = start;
        let ghost mut i: int = path.len() - 1;
        proof {
            lemma_refit_start(o, root, start, path, slack);
        }
        while node_id != NULL
            invariant
                self.pool.wf(),
                self.root_id == root,
                self.pool.free_list() == old(self).pool.free_list(),
                self.pool.slot_count() == old(self).pool.slot_count(),
                slack == 0 || slack == 1,
                refit_ready(o, root, start, path, slack),
                -1 <= i < path.len(),
                node_id == (if i >= 0 {
                    path[i]
                } else {
                    NULL
                }),
                refit_step(o, self.pool@, path, slack, i),
            decreases i + 1,
        {
            let ghost m = self.pool@;
            proof {
                lemma_refit_step(o, m, root, start, path, slack, i);
            }
            let left_id = self.get_node(node_id).left;
            let right_id = self.get_node(node_id).right;
            let left_height = self.get_node(left_id).height;
            let right_height = self.get_node(right_id).height;
            let new_height = 1 + if left_height >= right_height {
                left_height
            } else {
                right_height
            };
            let new_bounds = self.get_node(left_id).bounds.union(&self.get_node(right_id).bounds);
            let node = self.get_node_mut(node_id);
            node.height = new_height;
            node.bounds = new_bounds;
            node_id = node.parent;
            proof {
                assert(self.pool@ =~= m.insert(path[i], refit_node(m, path[i])));
                i = i - 1;
            }
        }
        proof {
            lemma_refit_done(o, self.pool@, root, start, path, slack, i);
        }
    }

    /// `self` is `before` after `insert_leaf(bounds, data)` returned `leaf_id`.
    ///
    /// The new leaf has the id that the arena hands out next, the new branch
    /// (if the tree was not empty) the one after it; `inserted` says how they
    /// are linked in; the branch carries a default value.
    pub open spec fn grown_from(&self, before: &Self, bounds: Bounds, data: T, leaf_id: NodeId) -> bool {
        &&& self.wf()
        &&& leaf_id == before.next_id()
        &&& leaf_id != NULL
        &&& !before.nodes().contains_key(leaf_id)
        &&& self.leaves() == before.leaves().insert(leaf_id, (bounds, data))
        &&& inserted(
            before.nodes(),
            before.root(),
            self.nodes(),
            self.root(),
            bounds,
            data,
            leaf_id,
            before.second_next_id(),
        )
        &&& before.root() != NULL ==> {
            &&& !before.nodes().contains_key(before.second_next_id())
            &&& before.second_next_id() != leaf_id
            &&& before.second_next_id() != NULL
            &&& call_ensures(T::default, (), self.nodes()[before.second_next_id()].data)
        }
        &&& self.free_ids() == before.free_ids_after(before.nodes_per_insert())
        &&& self.slot_count() == before.slot_count_after(before.nodes_per_insert())
        &&& self.height() <= before.height() + 1
    }

    /// `self` is `before` after `remove_leaf(leaf_id)`.
    ///
    /// An empty tree stays as it is. Otherwise `removed` says which nodes
    /// went and how the rest is linked; the slots of the nodes that went are
    /// the next to be reused, that of the leaf first.
    pub open spec fn shrunk_from(&self, before: &Self, leaf_id: NodeId) -> bool {
        &&& self.wf()
        &&& self.slot_count() == before.slot_count()
        &&& self.height() <= before.height()
        &&& if before.root() == NULL {
            &&& self.root() == NULL
            &&& self.nodes() == before.nodes()
            &&& self.free_ids() == before.free_ids()
        } else {
            &&& removed(before.nodes(), before.root(), self.nodes(), self.root(), leaf_id)
            &&& self.leaves() == before.leaves().remove(leaf_id)
            &&& self.free_ids() == (if leaf_id == before.root() {
                before.free_ids().push(leaf_id)
            } else {
                before.free_ids().push(before.nodes()[leaf_id].parent).push(leaf_id)
            })
        }
    }

    /// Whether `node_id` names a leaf of the tree.
    pub fn contains_leaf(&self, node_id: NodeId) -> (b: bool)
        requires
            self.arena_wf(),
        ensures
            b == self.leaves().contains_key(node_id),
    {
        self.pool.contains(node_id) && self.pool.get(node_id).is_leaf()
    }

    /// Height of the root; 0 for an empty tree.
    pub fn root_height(&self) -> (h: u32)
        requires
            self.wf(),
        ensures
            h == self.height(),
    {
        if self.root_id == NULL {
            0
        } else {
            self.get_node(self.root_id).height
        }
    }

    /// Whether an insertion is possible.
    pub fn has_room(&self) -> (b: bool)
        requires
            self.wf(),
        ensures
            b == self.can_grow(),
    {
        let live = self.pool.len();
        if self.root_id == NULL {
            live <= 0xffff_fffe
        } else {
            live <= 0xffff_fffd
        }
    }

    /// Inserts a leaf with `bounds` and `data` and returns its id.
    ///
    /// In an empty tree the leaf becomes the root. Otherwise the descent from
    /// the root goes, at each branch, to the child whose perimeter grows less
    /// when it takes in `bounds`, down to a leaf. A new branch takes that
    /// leaf's place, with that leaf as its left child and the new leaf as its
    /// right child. Heights and bounds are then recomputed up to the root.
    pub fn insert_leaf(&mut self, bounds: Bounds, data: T) -> (leaf_id: NodeId)
        requires
            old(self).wf(),
            old(self).can_grow(),
        ensures
            final(self).grown_from(old(self), bounds, data, leaf_id),
    {
        let ghost o = self.nodes();
        let ghost o_root = self.root_id;
        let ghost free0 = self.pool.free_list();
        let ghost branch_id = self.second_next_id();
        proof {
            self.pool.lemma_slot_count_fits();
            if self.root_id != NULL {
                self.lemma_height_below_slot_count(self.root_id);
            }
        }
        let leaf_id = self.pool.allocate_with(Node::new(bounds, data));
        proof {
            self.pool.lemma_id_in_range(leaf_id);
            self.pool.lemma_slot_count_fits();
        }
        if self.root_id == NULL {
            self.root_id = leaf_id;
            proof {
                let n = self.nodes();
                assert forall|id: NodeId| n.contains_key(id) implies #[trigger] links_ok(
                    n,
                    leaf_id,
                    id,
                ) by {}
                assert forall|id: NodeId| n.contains_key(id) implies #[trigger] metrics_ok(n, id) by {}
                assert(leaves_of(n) =~= leaves_of(o).insert(leaf_id, (bounds, data)));
                assert(free0.len() >= 1 ==> free0.drop_last() =~= free0.take(free0.len() - 1));
                assert(free0.len() == 0 ==> free0 =~= Seq::<NodeId>::empty());
            }
            return leaf_id;
        }
        let ghost with_leaf = self.pool@;
        let leaf_bounds = bounds;
        let mut sibling_id = self.root_id;
        while !self.get_node(sibling_id).is_leaf()
            invariant
                self.pool.wf(),
                self.pool@ == with_leaf,
                with_leaf == o.insert(leaf_id, Node::new(bounds, data)),
                !o.contains_key(leaf_id),
                self.root_id == o_root,
                tree_ok(o, o_root),
                o.contains_key(sibling_id),
                leaf_bounds == bounds,
                descend(o, sibling_id, bounds) == descend(o, o_root, bounds),
            decreases o[sibling_id].height,
        {
            proof {
                assert(links_ok(o, o_root, sibling_id));
                assert(metrics_ok(o, sibling_id));
            }
            let sibling = self.get_node(sibling_id);
            let left = self.get_node(sibling.left);
            let right = self.get_node(sibling.right);
            let cost_left = left.bounds.union(&leaf_bounds).perimeter() - left.bounds.perimeter();
            let cost_right = right.bounds.union(&leaf_bounds).perimeter()
                - right.bounds.perimeter();
            sibling_id =
            if cost_left < cost_right {
                sibling.left
            } else {
                sibling.right
            };
        }
        let sibling_parent_id = self.get_node(sibling_id).parent;
        let sibling_bounds = self.get_node(sibling_id).bounds;
        let sibling_height = self.get_node(sibling_id).height;
        proof {
            assert(links_ok(o, o_root, sibling_id));
            assert(metrics_ok(o, sibling_id));
        }
        let parent_id = self.pool.allocate();
        let parent = self.get_node_mut(parent_id);
        parent.parent = sibling_parent_id;
        parent.bounds = leaf_bounds.union(&sibling_bounds);
        parent.height = sibling_height + 1;
        parent.left = sibling_id;
        parent.right = leaf_id;
        proof {
            self.pool.lemma_id_in_range(parent_id);
            assert(parent_id == branch_id) by {
                if free0.len() > 1 {
                    assert(free0.drop_last().last() == free0[free0.len() - 2]);
                }
            }
        }
        let sibling = self.get_node_mut(sibling_id);
        sibling.parent = parent_id;
        let leaf = self.get_node_mut(leaf_id);
        leaf.parent = parent_id;
        if sibling_id == self.root_id {
            self.root_id = parent_id;
        } else {
            let is_sibling_left_child = self.get_node(sibling_parent_id).left == sibling_id;
            let grandparent = self.get_node_mut(sibling_parent_id);
            if is_sibling_left_child {
                grandparent.left = parent_id;
            } else {
                grandparent.right = parent_id;
            }
        }
        let ghost m = self.nodes();
        let ghost m_root = self.root_id;
        let ghost path = path_above(o, sibling_id);
        proof {
            if sibling_parent_id != NULL {
                assert(links_ok(o, o_root, sibling_parent_id));
            }
            assert(m.dom() =~= o.dom().insert(leaf_id).insert(parent_id));
            assert(insert_rewired(o, m, leaf_id, parent_id, sibling_id, bounds, data));
            lemma_insert_rewired(o, o_root, m, m_root, leaf_id, parent_id, sibling_id, bounds, data);
        }
        self.update_ancestors(sibling_parent_id, Ghost(path), Ghost(1));
        proof {
            lemma_insert_done(
                o,
                o_root,
                m,
                self.nodes(),
                m_root,
                leaf_id,
                parent_id,
                sibling_id,
                bounds,
                data,
            );
            assert(free0.len() >= 2 ==> free0.drop_last().drop_last() =~= free0.take(
                free0.len() - 2,
            ));
            assert(free0.len() == 1 ==> free0.drop_last() =~= Seq::<NodeId>::empty());
            assert(free0.len() == 0 ==> free0 =~= Seq::<NodeId>::empty());
        }
        leaf_id
    }

    /// Removes the leaf `leaf_id`; on an empty tree it does nothing.
    ///
    /// A leaf that is the root leaves the tree empty. Otherwise the parent of
    /// the leaf goes with it, and the sibling takes the parent's place: under
    /// the grandparent, or as the root. Heights and bounds are then recomputed
    /// from the grandparent up to the root.
    pub fn remove_leaf(&mut self, leaf_id: NodeId)
        requires
            old(self).wf(),
            old(self).root() != NULL ==> old(self).leaves().contains_key(leaf_id),
        ensures
            final(self).shrunk_from(old(self), leaf_id),
    {
        if self.root_id == NULL {
            return ;
        }
        let ghost o = self.nodes();
        let ghost o_root = self.root_id;
        proof {
            assert(links_ok(o, o_root, leaf_id));
            assert(metrics_ok(o, leaf_id));
        }
        if self.root_id == leaf_id {
            self.root_id = NULL;
            self.pool.free(leaf_id);
            proof {
                let n = self.nodes();
                assert forall|id: NodeId| !n.contains_key(id) by {
                    if o.contains_key(id) {
                        lemma_single_leaf(o, o_root, id);
                    }
                }
                assert(leaves_of(n) =~= leaves_of(o).remove(leaf_id));
            }
            return ;
        }
        let parent_id = self.get_node(leaf_id).parent;
        proof {
            assert(links_ok(o, o_root, parent_id));
            assert(metrics_ok(o, parent_id));
        }
        let sibling_id = {
            let parent = self.get_node(parent_id);
            if parent.left == leaf_id {
                parent.right
            } else {
                parent.left
            }
        };
        proof {
            assert(links_ok(o, o_root, sibling_id));
            assert(metrics_ok(o, sibling_id));
        }
        if self.root_id == parent_id {
            self.pool.free(parent_id);
            self.root_id = sibling_id;
            let sibling = self.get_node_mut(sibling_id);
            sibling.parent = NULL;
            self.pool.free(leaf_id);
            proof {
                let n = self.nodes();
                assert(n.dom() =~= o.dom().remove(leaf_id).remove(parent_id));
                assert(remove_rewired(o, n, leaf_id));
                lemma_remove_rewired(o, o_root, n, sibling_id, leaf_id);
                lemma_refit_start(n, sibling_id, NULL, Seq::empty(), 0);
                lemma_refit_done(n, n, sibling_id, NULL, Seq::empty(), 0, -1);
                lemma_remove_done(o, o_root, n, n, sibling_id, leaf_id);
            }
            return ;
        }
        let grandparent_id = self.get_node(parent_id).parent;
        proof {
            assert(links_ok(o, o_root, grandparent_id));
            assert(metrics_ok(o, grandparent_id));
        }
        let is_parent_left_child = self.get_node(grandparent_id).left == parent_id;
        self.pool.free(parent_id);
        let grandparent = self.get_node_mut(grandparent_id);
        if is_parent_left_child {
            grandparent.left = sibling_id;
        } else {
            grandparent.right = sibling_id;
        }
        let sibling = self.get_node_mut(sibling_id);
        sibling.parent = grandparent_id;
        self.pool.free(leaf_id);
        let ghost m = self.nodes();
        let ghost path = path_above(o, parent_id);
        proof {
            assert(m.dom() =~= o.dom().remove(leaf_id).remove(parent_id));
            assert(remove_rewired(o, m, leaf_id));
            lemma_remove_rewired(o, o_root, m, o_root, leaf_id);
        }
        self.update_ancestors(grandparent_id, Ghost(path), Ghost(0));
        proof {
            lemma_remove_done(o, o_root, m, self.nodes(), o_root, leaf_id);
        }
    }

    /// Visits, depth first and right child first, the leaves whose bounds meet
    /// `bounds`, skipping every subtree whose bounds do not. `f` is called on
    /// each such leaf and ends the search by returning false. Returns the ids
    /// of the leaves visited, in order.
    pub fn query<F>(&self, bounds: Bounds, f: F) -> (visited: Vec<NodeId>) where
        F: Fn(&Node<T>) -> bool,

        requires
            self.wf(),
            forall|id: NodeId|
                self.leaves().contains_key(id) ==> call_requires(f, (&self.nodes()[id],)),
        ensures
            visited@.is_prefix_of(self.hits(bounds)),
            visited@.no_duplicates(),
            forall|i: int|
                0 <= i < visited.len() ==> self.leaves().contains_key(#[trigger] visited[i])
                    && bounds.intersects(&self.nodes()[visited[i]].bounds),
            forall|i: int|
                0 <= i < visited.len() - 1 ==> call_ensures(
                    f,
                    (&self.nodes()[#[trigger] visited[i]],),
                    true,
                ),
            visited.len() < self.hits(bounds).len() ==> visited.len() > 0 && call_ensures(
                f,
                (&self.nodes()[visited[visited.len() - 1]],),
                false,
            ),
    {
        let mut visited: Vec<NodeId> = Vec::new();
        if self.root_id == NULL {
            return visited;
        }
        proof {
            lemma_hits_distinct(self.nodes(), self.root_id, self.root_id, bounds);
        }
        let mut stack: Vec<NodeId> = Vec::with_capacity(self.pool.len());
        stack.push(self.root_id);
        proof {
            lemma_pending_push(self.nodes(), Seq::empty(), self.root_id, bounds);
            assert(stack@ =~= Seq::<NodeId>::empty().push(self.root_id));
            assert(visited@ + pending_hits(self.nodes(), stack@, bounds) =~= self.hits(bounds));
        }
        while stack.len() > 0
            invariant
                self.wf(),
                self.root_id != NULL,
                forall|id: NodeId|
                    self.leaves().contains_key(id) ==> call_requires(f, (&self.nodes()[id],)),
                forall|i: int| 0 <= i < stack.len() ==> self.nodes().contains_key(#[trigger] stack[i]),
                visited@ + pending_hits(self.nodes(), stack@, bounds) == self.hits(bounds),
                self.hits(bounds).no_duplicates(),
                forall|i: int|
                    0 <= i < visited.len() ==> self.leaves().contains_key(#[trigger] visited[i])
                        && bounds.intersects(&self.nodes()[visited[i]].bounds),
                forall|i: int|
                    0 <= i < visited.len() ==> call_ensures(
                        f,
                        (&self.nodes()[#[trigger] visited[i]],),
                        true,
                    ),
            decreases pending_size(self.nodes(), stack@),
        {
            let ghost before = stack@;
            let ghost seen = visited@;
            let node_id = stack.pop().unwrap();
            let ghost rest = stack@;
            proof {
                assert(before =~= rest.push(node_id));
                lemma_pending_push(self.nodes(), rest, node_id, bounds);
            }
            let node = self.get_node(node_id);
            proof {
                assert(links_ok(self.nodes(), self.root(), node_id));
                assert(metrics_ok(self.nodes(), node_id));
            }
            if !bounds.intersects(&node.bounds) {
                assert(seen + pending_hits(self.nodes(), rest, bounds) =~= self.hits(bounds));
                continue ;
            }
            if node.is_leaf() {
                assert(self.leaves().contains_key(node_id));
                let go_on = f(node);
                visited.push(node_id);
                proof {
                    assert(hits(self.nodes(), node_id, bounds) == seq![node_id]);
                    assert(visited@ + pending_hits(self.nodes(), rest, bounds) =~= self.hits(bounds));
                }
                if !go_on {
                    proof {
                        let all = self.hits(bounds);
                        assert forall|i: int, j: int|
                            0 <= i < visited.len() && 0 <= j < visited.len() && i != j implies visited[i]
                            != visited[j] by {
                            assert(visited[i] == all[i] && visited[j] == all[j]);
                        }
                    }
                    return visited;
                }
            } else {
                stack.push(node.left);
                stack.push(node.right);
                proof {
                    lemma_pending_push(self.nodes(), rest, node.left, bounds);
                    lemma_pending_push(self.nodes(), rest.push(node.left), node.right, bounds);
                    assert(seen + pending_hits(self.nodes(), stack@, bounds) =~= self.hits(bounds));
                }
            }
        }
        proof {
            assert(visited@ =~= self.hits(bounds));
        }
        visited
    }
}

/// How far a proxy's box reaches beyond the true bounds of its body on every
/// side: a twentieth of a world unit.
pub const MARGIN: i32 = 50;

/// The leaf `hits[h]` carries another body than `body_id`, and `key` is the
/// pair of the two.
pub open spec fn tree_pair_at(
    nodes: Map<NodeId, Node<BodyId>>,
    hits: Seq<NodeId>,
    body_id: BodyId,
    h: int,
    key: (BodyId, BodyId),
) -> bool {
    &&& nodes[hits[h]].data != body_id
    &&& key == ordered_ids(nodes[hits[h]].data, body_id)
}

/// The pairs that `body_id` makes with the bodies of the first `count` leaves
/// in `hits`, itself left out.
pub open spec fn pairs_of_hits(
    nodes: Map<NodeId, Node<BodyId>>,
    hits: Seq<NodeId>,
    count: int,
    body_id: BodyId,
) -> Set<(BodyId, BodyId)> {
    Set::new(
        |key: (BodyId, BodyId)|
            exists|h: int| 0 <= h < count && #[trigger] tree_pair_at(nodes, hits, body_id, h, key),
    )
}

/// The pairs that the body `body_id` makes with the leaves that its true
/// bounds meet.
pub open spec fn pairs_of_body(
    tree: &BoundsTree<BodyId>,
    bodies: Seq<Body>,
    body_id: BodyId,
) -> Set<(BodyId, BodyId)> {
    let hits = tree.hits(body_with_id(bodies, body_id).bounds);
    pairs_of_hits(tree.nodes(), hits, hits.len() as int, body_id)
}

/// The pairs of the first `count` bodies in `reinserted`.
pub open spec fn pairs_of_reinserted(
    tree: &BoundsTree<BodyId>,
    reinserted: Seq<BodyId>,
    bodies: Seq<Body>,
    count: int,
) -> Set<(BodyId, BodyId)> {
    Set::new(
        |key: (BodyId, BodyId)|
            exists|k: int|
                0 <= k < count && #[trigger] pairs_of_body(tree, bodies, reinserted[k]).contains(key),
    )
}

proof fn lemma_pairs_of_hits_step(
    nodes: Map<NodeId, Node<BodyId>>,
    hits: Seq<NodeId>,
    h: int,
    body_id: BodyId,
)
    requires
        0 <= h < hits.len(),
    ensures
        pairs_of_hits(nodes, hits, 0, body_id) == Set::<(BodyId, BodyId)>::empty(),
        pairs_of_hits(nodes, hits, h + 1, body_id) == (if nodes[hits[h]].data != body_id {
            pairs_of_hits(nodes, hits, h, body_id).insert(ordered_ids(nodes[hits[h]].data, body_id))
        } else {
            pairs_of_hits(nodes, hits, h, body_id)
        }),
{
    let next = pairs_of_hits(nodes, hits, h + 1, body_id);
    let expected = if nodes[hits[h]].data != body_id {
        pairs_of_hits(nodes, hits, h, body_id).insert(ordered_ids(nodes[hits[h]].data, body_id))
    } else {
        pairs_of_hits(nodes, hits, h, body_id)
    };
    assert forall|key: (BodyId, BodyId)| next.contains(key) == expected.contains(key) by {
        if next.contains(key) {
            let g = choose|g: int| 0 <= g < h + 1 && #[trigger] tree_pair_at(nodes, hits, body_id, g, key);
            if g != h {
                assert(tree_pair_at(nodes, hits, body_id, g, key));
                assert(pairs_of_hits(nodes, hits, h, body_id).contains(key));
            }
        }
        if expected.contains(key) {
            if pairs_of_hits(nodes, hits, h, body_id).contains(key) {
                let g = choose|g: int| 0 <= g < h && #[trigger] tree_pair_at(nodes, hits, body_id, g, key);
                assert(tree_pair_at(nodes, hits, body_id, g, key));
            } else {
                assert(tree_pair_at(nodes, hits, body_id, h, key));
            }
        }
    }
    assert(next =~= expected);
    assert(pairs_of_hits(nodes, hits, 0, body_id) =~= Set::<(BodyId, BodyId)>::empty());
}

proof fn lemma_pairs_of_reinserted_step(
    tree: &BoundsTree<BodyId>,
    reinserted: Seq<BodyId>,
    bodies: Seq<Body>,
    k: int,
)
    requires
        0 <= k < reinserted.len(),
    ensures
        pairs_of_reinserted(tree, reinserted, bodies, 0) == Set::<(BodyId, BodyId)>::empty(),
        pairs_of_reinserted(tree, reinserted, bodies, k + 1) == pairs_of_reinserted(
            tree,
            reinserted,
            bodies,
            k,
        ).union(pairs_of_body(tree, bodies, reinserted[k])),
{
    let next = pairs_of_reinserted(tree, reinserted, bodies, k + 1);
    let expected = pairs_of_reinserted(tree, reinserted, bodies, k).union(
        pairs_of_body(tree, bodies, reinserted[k]),
    );
    assert forall|key: (BodyId, BodyId)| next.contains(key) == expected.contains(key) by {
        if next.contains(key) {
            let g = choose|g: int|
                0 <= g < k + 1 && #[trigger] pairs_of_body(tree, bodies, reinserted[g]).contains(key);
            if g != k {
                assert(pairs_of_body(tree, bodies, reinserted[g]).contains(key));
                assert(pairs_of_reinserted(tree, reinserted, bodies, k).contains(key));
            }
        }
        if expected.contains(key) {
            if pairs_of_reinserted(tree, reinserted, bodies, k).contains(key) {
                let g = choose|g: int|
                    0 <= g < k && #[trigger] pairs_of_body(tree, bodies, reinserted[g]).contains(key);
                assert(pairs_of_body(tree, bodies, reinserted[g]).contains(key));
            } else {
                assert(pairs_of_body(tree, bodies, reinserted[k]).contains(key));
            }
        }
    }
    assert(next =~= expected);
    assert(pairs_of_reinserted(tree, reinserted, bodies, 0) =~= Set::<(BodyId, BodyId)>::empty());
}

/// The strategy that keeps a tree of fattened boxes, one leaf for each body,
/// and looks only at the bodies whose leaf had to move.
pub struct BoundsTreeBroadPhase {
    tree: BoundsTree<BodyId>,
    reinserted_bodies: Vec<BodyId>,
}

impl BoundsTreeBroadPhase {
    /// The tree of proxies.
    pub closed spec fn tree(&self) -> BoundsTree<BodyId> {
        self.tree
    }

    /// The bodies whose proxy was destroyed and created anew since the last
    /// `post_update`, in the order in which that happened.
    pub closed spec fn reinserted(&self) -> Seq<BodyId> {
        self.reinserted_bodies@
    }

    /// The proxies: for each its fattened bounds and the body it stands for.
    pub open spec fn proxies(&self) -> Map<ProxyId, (Bounds, BodyId)> {
        self.tree().leaves()
    }

    pub fn new() -> (broad_phase: BoundsTreeBroadPhase)
        ensures
            broad_phase.inv(),
            broad_phase.proxies() == Map::<ProxyId, (Bounds, BodyId)>::empty(),
            broad_phase.reinserted() == Seq::<BodyId>::empty(),
            broad_phase.tree().root() == NULL,
            broad_phase.tree().free_ids() == Seq::<NodeId>::empty(),
            broad_phase.tree().slot_count() == 0,
    {
        let broad_phase = BoundsTreeBroadPhase { tree: BoundsTree::new(), reinserted_bodies: Vec::new() };
        assert(broad_phase.proxies() =~= Map::<ProxyId, (Bounds, BodyId)>::empty());
        broad_phase
    }

    /// Forgets which bodies were reinserted; the tree stays as it is.
    pub fn post_update(&mut self)
        ensures
            final(self).tree() == old(self).tree(),
            final(self).reinserted() == Seq::<BodyId>::empty(),
    {
        self.reinserted_bodies.clear();
    }

    /// The bodies reinserted since the last `post_update`.
    pub fn reinserted_bodies(&self) -> (ids: &Vec<BodyId>)
        ensures
            ids@ == self.reinserted(),
    {
        &self.reinserted_bodies
    }

    /// The fattened bounds of a proxy.
    pub fn proxy_bounds(&self, proxy_id: ProxyId) -> (bounds: Bounds)
        requires
            self.inv(),
            self.has_proxy(proxy_id),
        ensures
            bounds == self.proxies()[proxy_id].0,
    {
        self.tree.get_node(proxy_id).bounds
    }

    /// `self` is `before` after the proxy `proxy_id` was destroyed and created
    /// anew for `body`, under the same id.
    pub open spec fn reinserted_from(&self, before: &Self, proxy_id: ProxyId, body: Body) -> bool {
        &&& self.reinserted() == before.reinserted().push(body.id)
        &&& self.proxies() == before.proxies().insert(
            proxy_id,
            (body.bounds.expand(MARGIN), body.id),
        )
        &&& exists|without: BoundsTree<BodyId>|
            {
                &&& #[trigger] without.shrunk_from(&before.tree(), proxy_id)
                &&& self.tree().grown_from(
                    &without,
                    body.bounds.expand(MARGIN),
                    body.id,
                    proxy_id,
                )
            }
    }
}

impl BroadPhase for BoundsTreeBroadPhase {
    open spec fn inv(&self) -> bool {
        self.tree().wf()
    }

    open spec fn has_proxy(&self, proxy_id: ProxyId) -> bool {
        self.proxies().contains_key(proxy_id)
    }

    open spec fn can_create(&self) -> bool {
        self.tree().can_grow()
    }

    open spec fn knows_bodies(&self, bodies: Seq<Body>) -> bool {
        forall|k: int|
            0 <= k < self.reinserted().len() ==> has_body(bodies, #[trigger] self.reinserted()[k])
    }

    /// For each reinserted body, the pairs it makes with the leaves that its
    /// true bounds meet, its own leaf left out.
    open spec fn candidates(&self, bodies: Seq<Body>) -> Set<(BodyId, BodyId)> {
        pairs_of_reinserted(
            &self.tree(),
            self.reinserted(),
            bodies,
            self.reinserted().len() as int,
        )
    }

    fn new_potential_pairs<C>(&self, bodies: &Bodies, constraints: &mut ConstraintsMap<C>) {
        let ghost before = constraints@;
        let ghost nodes = self.tree.nodes();
        let count = self.reinserted_bodies.len();
        if count == 0 {
            proof {
                assert(self.candidates(bodies@) =~= Set::<(BodyId, BodyId)>::empty());
            }
            return ;
        }
        proof {
            lemma_pairs_of_reinserted_step(&self.tree, self.reinserted_bodies@, bodies@, 0);
        }
        let mut k: usize = 0;
        while k < count
            invariant
                self.tree.wf(),
                self.knows_bodies(bodies@),
                nodes == self.tree.nodes(),
                count == self.reinserted_bodies.len(),
                k <= count,
                constraints.wf(),
                extended_by(
                    before,
                    constraints@,
                    pairs_of_reinserted(&self.tree, self.reinserted_bodies@, bodies@, k as int),
                ),
            decreases count - k,
        {
            let body_id = self.reinserted_bodies[k];
            let ghost done = pairs_of_reinserted(&self.tree, self.reinserted_bodies@, bodies@, k as int);
            proof {
                assert(has_body(bodies@, self.reinserted()[k as int]));
            }
            let index = find_body(bodies, body_id).unwrap();
            let bounds = bodies[index].bounds;
            let visit_all = |node: &Node<BodyId>| -> (go_on: bool)
                ensures
                    go_on,
                { true };
            let visited = self.tree.query(bounds, visit_all);
            let ghost hits = self.tree.hits(bounds);
            proof {
                if visited.len() < hits.len() {
                    assert(call_ensures(visit_all, (&nodes[visited[visited.len() - 1]],), false));
                }
                assert(visited@ =~= hits);
                if hits.len() > 0 {
                    lemma_pairs_of_hits_step(nodes, hits, 0, body_id);
                }
                assert(pairs_of_hits(nodes, hits, 0, body_id) =~= Set::<(BodyId, BodyId)>::empty());
                assert(done.union(pairs_of_hits(nodes, hits, 0, body_id)) =~= done);
            }
            let mut h: usize = 0;
            while h < visited.len()
                invariant
                    self.tree.wf(),
                    nodes == self.tree.nodes(),
                    visited@ == hits,
                    forall|i: int| 0 <= i < hits.len() ==> nodes.contains_key(#[trigger] hits[i]),
                    h <= visited.len(),
                    constraints.wf(),
                    extended_by(
                        before,
                        constraints@,
                        done.union(pairs_of_hits(nodes, hits, h as int, body_id)),
                    ),
                decreases visited.len() - h,
            {
                let node = self.tree.get_node(visited[h]);
                let ghost found = pairs_of_hits(nodes, hits, h as int, body_id);
                proof {
                    lemma_pairs_of_hits_step(nodes, hits, h as int, body_id);
                }
                if node.data != body_id {
                    let ghost current = constraints@;
                    let body_pair = BodyPair::new(node.data, body_id);
                    let list = constraints.entry(body_pair);
                    proof {
                        lemma_extended_step(before, current, done.union(found), body_pair@, *list);
                        assert(done.union(found).insert(body_pair@) =~= done.union(
                            found.insert(body_pair@),
                        ));
                    }
                }
                h += 1;
            }
            proof {
                lemma_pairs_of_reinserted_step(&self.tree, self.reinserted_bodies@, bodies@, k as int);
            }
            k += 1;
        }
    }

    fn contains_proxy(&self, proxy_id: ProxyId) -> (b: bool) {
        self.tree.contains_leaf(proxy_id)
    }

    fn has_room(&self) -> (b: bool) {
        self.tree.has_room()
    }

    /// Puts a leaf for `body` into the tree: its bounds grown by `MARGIN`,
    /// its id as the leaf's data.
    fn create_proxy(&mut self, body: &Body) -> (proxy_id: ProxyId)
        ensures
            final(self).reinserted() == old(self).reinserted(),
            final(self).tree().grown_from(
                &old(self).tree(),
                body.bounds.expand(MARGIN),
                body.id,
                proxy_id,
            ),
            final(self).proxies() == old(self).proxies().insert(
                proxy_id,
                (body.bounds.expand(MARGIN), body.id),
            ),
            final(self).proxies()[proxy_id].0.contains(&body.bounds),
    {
        proof {
            lemma_expand_contains(body.bounds, MARGIN);
        }
        self.tree.insert_leaf(body.bounds.expand(MARGIN), body.id)
    }

    /// Takes the leaf `proxy_id` out of the tree.
    fn destroy_proxy(&mut self, proxy_id: ProxyId)
        ensures
            final(self).reinserted() == old(self).reinserted(),
            final(self).tree().shrunk_from(&old(self).tree(), proxy_id),
            final(self).proxies() == old(self).proxies().remove(proxy_id),
    {
        self.tree.remove_leaf(proxy_id);
    }

    /// Does nothing while the true bounds of `body` lie within the fattened
    /// bounds of its proxy. Once they do not, destroys the proxy, creates it
    /// anew under the same id, and records the body as reinserted.
    fn update_proxy(&mut self, proxy_id: ProxyId, body: &Body)
        ensures
            old(self).proxies()[proxy_id].0.contains(&body.bounds) ==> final(self).tree() == old(
                self,
            ).tree() && final(self).reinserted() == old(self).reinserted(),
            !old(self).proxies()[proxy_id].0.contains(&body.bounds) ==> final(self).reinserted_from(
                old(self),
                proxy_id,
                *body,
            ),
            final(self).proxies()[proxy_id].0.contains(&body.bounds),
    {
        if self.tree.get_node(proxy_id).bounds.contains(&body.bounds) {
            return ;
        }
        let ghost before = *self;
        self.destroy_proxy(proxy_id);
        let ghost without = self.tree;
        let created = self.create_proxy(body);
        self.reinserted_bodies.push(body.id);
        proof {
            assert(created == proxy_id);
            assert(self.proxies() =~= before.proxies().insert(
                proxy_id,
                (body.bounds.expand(MARGIN), body.id),
            ));
            assert(without.shrunk_from(&before.tree(), proxy_id));
        }
    }
}

} // verus!
