//! A scene graph as a plain recursive value: a node and, in order, the
//! subtrees below it. This is the shape in which a payload describes a rig
//! and the model over which the tree's contracts are stated.

use vstd::prelude::*;
use crate::node::add_weight;
use crate::node::Node;
use crate::node::NodeKind;
use crate::node::NodeView;

verus! {

/// The deepest level at which a tree holds a node; the root is at level
/// 0. A scene may be deeper, but no tree is built from it.
pub const MAX_DEPTH: usize = 128;

/// A node with the subtrees below it, in declaration order.
#[derive(Debug, PartialEq, Eq)]
pub struct SceneNode {
    pub node: Node,
    pub children: Vec<SceneNode>,
}

/// A tree of node values.
pub struct TreeView {
    pub node: NodeView,
    pub children: Seq<TreeView>,
}

impl View for SceneNode {
    type V = TreeView;

    open spec fn view(&self) -> TreeView {
        tree_of(*self)
    }
}

/// The tree of values that a scene holds.
pub open spec fn tree_of(scene: SceneNode) -> TreeView
    decreases scene,
{
    TreeView { node: scene.node@, children: views_of(scene.children@) }
}

/// The view of each scene of a sequence, in order.
pub open spec fn views_of(scenes: Seq<SceneNode>) -> Seq<TreeView>
    decreases scenes,
{
    if scenes.len() == 0 {
        Seq::empty()
    } else {
        views_of(scenes.drop_last()).push(tree_of(scenes.last()))
    }
}

/// The views of a sequence of scenes stand one for one in their places.
pub proof fn lemma_views_of(scenes: Seq<SceneNode>)
    ensures
        views_of(scenes).len() == scenes.len(),
        forall|i: int| 0 <= i < scenes.len() ==> #[trigger] views_of(scenes)[i] == scenes[i]@,
    decreases scenes.len(),
{
    if scenes.len() > 0 {
        lemma_views_of(scenes.drop_last());
    }
}

impl TreeView {
    /// The number of levels below the root of this tree.
    pub open spec fn height(self) -> nat
        decreases self,
    {
        if self.children.len() == 0 {
            0
        } else {
            1 + max_height(self.children)
        }
    }

    /// The identifiers of this tree's nodes in pre-order: a node before its
    /// subtrees, and those in declaration order.
    pub open spec fn uuids(self) -> Seq<u32>
        decreases self,
    {
        seq![self.node.uuid] + uuids_of_all(self.children)
    }

    /// The nodes of this tree in pre-order, each with the level at which it
    /// stands when the root stands at level `depth`.
    pub open spec fn outline(self, depth: nat) -> Seq<(nat, NodeView)>
        decreases self,
    {
        seq![(depth, self.node)] + outline_of_all(self.children, depth + 1)
    }

    /// This tree with `node` in the place of every node that carries the
    /// identifier `uuid`; where identifiers are distinct, that is one node
    /// at most.
    pub open spec fn with_node(self, uuid: u32, node: NodeView) -> TreeView
        decreases self,
    {
        TreeView {
            node: if self.node.uuid == uuid {
                node
            } else {
                self.node
            },
            children: with_node_in_all(self.children, uuid, node),
        }
    }

    /// The nodes that the draw order visits, each with its effective
    /// weight, in pre-order. `base` is the effective weight of the parent.
    /// A node's effective weight is its own weight added to that; below a
    /// composite node nothing is visited.
    pub open spec fn draw_entries(self, base: Option<int>) -> Seq<(u32, Option<int>)>
        decreases self,
    {
        let z = add_weight(base, self.node.zsort);
        if self.node.kind == NodeKind::Composite {
            seq![(self.node.uuid, z)]
        } else {
            seq![(self.node.uuid, z)] + draw_entries_of_all(self.children, z)
        }
    }
}

/// The greatest height among `trees`, 0 when there are none.
pub open spec fn max_height(trees: Seq<TreeView>) -> nat
    decreases trees,
{
    if trees.len() == 0 {
        0
    } else {
        let rest = max_height(trees.drop_last());
        let last = trees.last().height();
        if rest >= last {
            rest
        } else {
            last
        }
    }
}

/// The pre-order identifiers of `trees`, one tree after the other.
pub open spec fn uuids_of_all(trees: Seq<TreeView>) -> Seq<u32>
    decreases trees,
{
    if trees.len() == 0 {
        Seq::empty()
    } else {
        uuids_of_all(trees.drop_last()) + trees.last().uuids()
    }
}

/// Each of `trees` with `node` in the place of every node that carries
/// the identifier `uuid`.
pub open spec fn with_node_in_all(trees: Seq<TreeView>, uuid: u32, node: NodeView) -> Seq<
    TreeView,
>
    decreases trees,
{
    if trees.len() == 0 {
        Seq::empty()
    } else {
        with_node_in_all(trees.drop_last(), uuid, node).push(trees.last().with_node(uuid, node))
    }
}

/// Putting a node in place keeps every tree of a row in its place.
pub proof fn lemma_with_node_in_all(trees: Seq<TreeView>, uuid: u32, node: NodeView)
    ensures
        with_node_in_all(trees, uuid, node).len() == trees.len(),
        forall|i: int|
            0 <= i < trees.len() ==> #[trigger] with_node_in_all(trees, uuid, node)[i]
                == trees[i].with_node(uuid, node),
    decreases trees.len(),
{
    if trees.len() > 0 {
        lemma_with_node_in_all(trees.drop_last(), uuid, node);
    }
}

/// The outlines of `trees`, all of which stand at level `depth`, one tree
/// after the other.
pub open spec fn outline_of_all(trees: Seq<TreeView>, depth: nat) -> Seq<(nat, NodeView)>
    decreases trees,
{
    if trees.len() == 0 {
        Seq::empty()
    } else {
        outline_of_all(trees.drop_last(), depth) + trees.last().outline(depth)
    }
}

/// The draw entries of `trees` below a parent of effective weight `base`,
/// one tree after the other.
pub open spec fn draw_entries_of_all(trees: Seq<TreeView>, base: Option<int>) -> Seq<
    (u32, Option<int>),
>
    decreases trees,
{
    if trees.len() == 0 {
        Seq::empty()
    } else {
        draw_entries_of_all(trees.drop_last(), base) + trees.last().draw_entries(base)
    }
}

/// The walk of the draw order starts with the node itself, whose effective
/// weight is its own weight added to that of its parent; where the node is
/// a composite, the walk ends there.
pub proof fn lemma_draw_entries_start(tree: TreeView, base: Option<int>)
    ensures
        tree.draw_entries(base).len() >= 1,
        tree.draw_entries(base)[0] == (tree.node.uuid, add_weight(base, tree.node.zsort)),
        tree.node.kind == NodeKind::Composite ==> tree.draw_entries(base).len() == 1,
{
}

/// The draw order visits nodes of the tree only.
pub proof fn lemma_drawn_nodes_are_nodes(tree: TreeView, base: Option<int>, i: int)
    requires
        0 <= i < tree.draw_entries(base).len(),
    ensures
        tree.uuids().contains(tree.draw_entries(base)[i].0),
    decreases tree,
{
    let entries = tree.draw_entries(base);
    let total = add_weight(base, tree.node.zsort);
    if i == 0 {
        assert(tree.uuids()[0] == tree.node.uuid);
    } else {
        let below = draw_entries_of_all(tree.children, total);
        assert(entries[i] == below[i - 1]);
        lemma_drawn_nodes_are_nodes_of_all(tree.children, total, i - 1);
        let found = below[i - 1].0;
        let k = choose|k: int|
            0 <= k < uuids_of_all(tree.children).len() && uuids_of_all(tree.children)[k] == found;
        assert(tree.uuids()[k + 1] == found);
    }
}

/// The same for a row of trees.
pub proof fn lemma_drawn_nodes_are_nodes_of_all(trees: Seq<TreeView>, base: Option<int>, i: int)
    requires
        0 <= i < draw_entries_of_all(trees, base).len(),
    ensures
        uuids_of_all(trees).contains(draw_entries_of_all(trees, base)[i].0),
    decreases trees,
{
    let before = draw_entries_of_all(trees.drop_last(), base);
    let listed = uuids_of_all(trees.drop_last());
    let found = draw_entries_of_all(trees, base)[i].0;
    if i < before.len() {
        lemma_drawn_nodes_are_nodes_of_all(trees.drop_last(), base, i);
        let k = choose|k: int| 0 <= k < listed.len() && listed[k] == found;
        assert(uuids_of_all(trees)[k] == found);
    } else {
        lemma_drawn_nodes_are_nodes(trees.last(), base, i - before.len());
        let k = choose|k: int|
            0 <= k < trees.last().uuids().len() && trees.last().uuids()[k] == found;
        assert(uuids_of_all(trees)[listed.len() + k] == found);
    }
}

/// No tree of a sequence is higher than the greatest height among them.
pub proof fn lemma_max_height_bounds(trees: Seq<TreeView>, i: int)
    requires
        0 <= i < trees.len(),
    ensures
        trees[i].height() <= max_height(trees),
    decreases trees.len(),
{
    if i < trees.len() - 1 {
        lemma_max_height_bounds(trees.drop_last(), i);
    }
}

impl SceneNode {
    /// The view of a scene, level by level: the node's value, and the view
    /// of each subtree in its place.
    pub proof fn lemma_view(&self)
        ensures
            self@.node == self.node@,
            self@.children.len() == self.children@.len(),
            forall|i: int|
                0 <= i < self.children@.len() ==> #[trigger] self@.children[i]
                    == self.children@[i]@,
    {
        lemma_views_of(self.children@);
    }

    /// A node with the given subtrees below it.
    pub fn new(node: Node, children: Vec<SceneNode>) -> (scene: SceneNode)
        ensures
            scene.node == node,
            scene.children == children,
    {
        SceneNode { node, children }
    }

    /// Whether no node of this scene lies more than `limit` levels below
    /// its root.
    pub fn fits_depth(&self, limit: usize) -> (fits: bool)
        ensures
            fits == (self@.height() <= limit),
        decreases self,
    {
        proof {
            self.lemma_view();
        }
        if self.children.len() == 0 {
            return true;
        }
        if limit == 0 {
            return false;
        }
        let ghost trees = self@.children;
        let mut i: usize = 0;
        assert(trees.take(0) =~= Seq::<TreeView>::empty());
        while i < self.children.len()
            invariant
                i <= self.children@.len(),
                limit > 0,
                trees == self@.children,
                trees.len() == self.children@.len(),
                max_height(trees.take(i as int)) <= limit - 1,
            decreases self.children@.len() - i,
        {
            proof {
                self.lemma_view();
            }
            let fits = self.children[i].fits_depth(limit - 1);
            if !fits {
                proof {
                    lemma_max_height_bounds(trees, i as int);
                }
                return false;
            }
            proof {
                let next = trees.take(i + 1);
                assert(next.drop_last() =~= trees.take(i as int));
                assert(next.last() == trees[i as int]);
            }
            i += 1;
        }
        assert(trees.take(i as int) =~= trees);
        true
    }
}

} // verus!
