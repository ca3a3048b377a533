//! The scene graph of a puppet: nodes stored in an arena, linked into one
//! tree, and found by their identifiers.

use vstd::prelude::*;
use std::collections::BTreeMap;
use indextree::Arena;
use indextree::NodeId;
use crate::arena::arena_ancestors;
use crate::arena::arena_append;
use crate::arena::arena_children;
use crate::arena::arena_children_of;
use crate::arena::arena_data;
use crate::arena::arena_get;
use crate::arena::arena_get_mut;
use crate::arena::arena_new;
use crate::arena::arena_new_node;
use crate::arena::arena_parent;
use crate::arena::arena_parent_of;
use crate::draw_order::entry_values;
use crate::draw_order::order_of;
use crate::draw_order::sort_uuids_by_zsort;
use crate::error::PuppetError;
use crate::node::add_weight;
use crate::node::Node;
use crate::node::ZSort;
use crate::node::NodeUuid;
use crate::node::NodeView;
use crate::scene::draw_entries_of_all;
use crate::scene::outline_of_all;
use crate::scene::uuids_of_all;
use crate::scene::SceneNode;
use crate::scene::TreeView;
use crate::scene::MAX_DEPTH;
use crate::tree_model::climb;
use crate::tree_model::handles_of;
use crate::tree_model::handles_of_all;
use crate::tree_model::lemma_climb_step;
use crate::tree_model::lemma_duplicate_in_prefix;
use crate::tree_model::lemma_handles_of_all_member;
use crate::tree_model::lemma_subtree_frame;
use crate::tree_model::lemma_uuids_of_all_prefix;
use crate::tree_model::lemma_uuids_of_subtree;
use crate::tree_model::subtree_of;
use crate::tree_model::uuids_at;

verus! {

broadcast use {vstd::std_specs::btree::group_btree_axioms, vstd::laws_cmp::group_laws_cmp};

/// A tree of nodes. The arena owns the nodes and their links; `uuids` finds
/// a node's handle by its identifier; `levels` records, for the proofs, how
/// far below the root each node lies.
pub struct NodeTree {
    root: NodeId,
    arena: Arena<Node>,
    uuids: BTreeMap<u32, NodeId>,
    levels: Ghost<Map<NodeId, nat>>,
}

impl NodeTree {
    /// The nodes that the tree holds, by handle.
    pub closed spec fn data(&self) -> Map<NodeId, Node> {
        arena_data(self.arena)
    }

    /// The parent link of each node but the root.
    pub closed spec fn parents(&self) -> Map<NodeId, NodeId> {
        arena_parent(self.arena)
    }

    /// The children of each node, in declaration order.
    pub closed spec fn children(&self) -> Map<NodeId, Seq<NodeId>> {
        arena_children(self.arena)
    }

    /// The handle under which each identifier is found.
    pub closed spec fn index(&self) -> Map<u32, NodeId> {
        self.uuids@
    }

    /// The handle of the root.
    pub closed spec fn root_id(&self) -> NodeId {
        self.root
    }

    /// The number of levels between the root and each node.
    pub closed spec fn levels(&self) -> Map<NodeId, nat> {
        self.levels@
    }

    /// The invariant of a tree: the root is a node without parent; every
    /// other node has a parent that lists it among its children, one level
    /// above it; no node lies deeper than `MAX_DEPTH`; and the index finds
    /// exactly the nodes of the arena, each under its own identifier.
    pub open spec fn wf(&self) -> bool {
        let data = self.data();
        let parents = self.parents();
        let children = self.children();
        let index = self.index();
        let levels = self.levels();
        &&& data.contains_key(self.root_id())
        &&& !parents.contains_key(self.root_id())
        &&& levels[self.root_id()] == 0
        &&& forall|id: NodeId| data.contains_key(id) <==> children.contains_key(id)
        &&& forall|id: NodeId| #[trigger]
            data.contains_key(id) ==> index.contains_key(data[id]@.uuid) && index[data[id]@.uuid]
                == id
        &&& forall|u: u32| #[trigger]
            index.contains_key(u) ==> data.contains_key(index[u]) && data[index[u]]@.uuid == u
        &&& forall|id: NodeId|
            data.contains_key(id) && id != self.root_id() ==> #[trigger] parents.contains_key(id)
        &&& forall|id: NodeId| #[trigger]
            parents.contains_key(id) ==> data.contains_key(id) && data.contains_key(parents[id])
                && levels[id] == levels[parents[id]] + 1 && children[parents[id]].contains(id)
        &&& forall|id: NodeId, i: int|
            data.contains_key(id) && 0 <= i < children[id].len() ==> parents.contains_key(
                #[trigger] children[id][i],
            ) && parents[children[id][i]] == id
        &&& forall|id: NodeId| #[trigger]
            data.contains_key(id) ==> children[id].no_duplicates() && levels.contains_key(id)
                && levels[id] <= MAX_DEPTH
    }

    /// The tree as a value: the root's node and, below it, the subtrees of
    /// its children in order.
    pub closed spec fn view(&self) -> TreeView {
        subtree_of(self.data(), self.children(), self.root_id(), MAX_DEPTH as nat)
    }

    /// Whether the tree holds a node with identifier `uuid`.
    pub closed spec fn has(&self, uuid: u32) -> bool {
        self.uuids@.contains_key(uuid)
    }

    /// The node with identifier `uuid`.
    pub closed spec fn node_of(&self, uuid: u32) -> Node {
        arena_data(self.arena)[self.uuids@[uuid]]
    }

    /// The identifier of the parent of the node with identifier `uuid`, if
    /// that node has a parent.
    pub closed spec fn parent_of(&self, uuid: u32) -> Option<u32> {
        let id = self.uuids@[uuid];
        if arena_parent(self.arena).contains_key(id) {
            Some(arena_data(self.arena)[arena_parent(self.arena)[id]]@.uuid)
        } else {
            None
        }
    }

    /// The identifiers of the children of the node with identifier `uuid`,
    /// in declaration order.
    pub closed spec fn children_of(&self, uuid: u32) -> Seq<u32> {
        let ids = arena_children(self.arena)[self.uuids@[uuid]];
        Seq::new(ids.len(), |i: int| arena_data(self.arena)[ids[i]]@.uuid)
    }

    /// The identifier of the root.
    pub closed spec fn root_uuid(&self) -> u32 {
        arena_data(self.arena)[self.root]@.uuid
    }

    /// The node with identifier `uuid` and everything below it, as a value.
    pub closed spec fn subtree(&self, uuid: u32) -> TreeView {
        subtree_of(
            self.data(),
            self.children(),
            self.index()[uuid],
            (MAX_DEPTH - self.levels()[self.index()[uuid]]) as nat,
        )
    }

    /// The tree is what lies below its root, and the root has no parent.
    pub proof fn lemma_root(&self)
        requires
            self.wf(),
        ensures
            self.has(self.root_uuid()),
            self@ == self.subtree(self.root_uuid()),
            self.parent_of(self.root_uuid()) is None,
    {
    }

    /// A node is found under its own identifier, and is the root of what
    /// lies below it.
    pub proof fn lemma_node(&self, uuid: u32)
        requires
            self.wf(),
            self.has(uuid),
        ensures
            self.node_of(uuid)@.uuid == uuid,
            self.subtree(uuid).node == self.node_of(uuid)@,
    {
    }

    /// Below a node lie the subtrees of its children, in their order; each
    /// child is a node of the tree and has that node as its parent.
    pub proof fn lemma_children(&self, uuid: u32)
        requires
            self.wf(),
            self.has(uuid),
        ensures
            self.subtree(uuid).children.len() == self.children_of(uuid).len(),
            self.children_of(uuid).no_duplicates(),
            forall|i: int|
                0 <= i < self.children_of(uuid).len() ==> {
                    let child = #[trigger] self.children_of(uuid)[i];
                    &&& self.has(child)
                    &&& self.parent_of(child) == Some(uuid)
                    &&& self.subtree(uuid).children[i] == self.subtree(child)
                },
    {
        let id = self.index()[uuid];
        let kids = self.children()[id];
        let fuel = (MAX_DEPTH - self.levels()[id]) as nat;
        assert forall|i: int| 0 <= i < kids.len() implies self.parents().contains_key(
            #[trigger] kids[i],
        ) && self.data().contains_key(kids[i]) && self.levels()[kids[i]] == self.levels()[id]
            + 1 by {
            assert(self.parents().contains_key(self.children()[id][i]));
        }
        if kids.len() > 0 {
            assert(self.parents().contains_key(kids[0]));
            assert(fuel > 0);
        }
        assert forall|i: int, j: int|
            0 <= i < kids.len() && 0 <= j < kids.len() && i != j implies self.children_of(uuid)[i]
            != self.children_of(uuid)[j] by {
            assert(self.parents().contains_key(kids[i]));
            assert(self.parents().contains_key(kids[j]));
            assert(self.data().contains_key(kids[i]));
            assert(self.data().contains_key(kids[j]));
        }
    }

    /// A node that has a parent is among the children of that parent, which
    /// is a node of the tree; only the root has none.
    pub proof fn lemma_parent(&self, uuid: u32)
        requires
            self.wf(),
            self.has(uuid),
        ensures
            self.parent_of(uuid) is None <==> uuid == self.root_uuid(),
            self.parent_of(uuid) is Some ==> self.has(self.parent_of(uuid)->Some_0)
                && self.children_of(self.parent_of(uuid)->Some_0).contains(uuid),
    {
        let id = self.index()[uuid];
        if self.parents().contains_key(id) {
            let p = self.parents()[id];
            let k = choose|k: int| 0 <= k < self.children()[p].len() && self.children()[p][k] == id;
            let pu = self.data()[p]@.uuid;
            assert(self.data().contains_key(p));
            assert(self.children_of(pu)[k] == uuid);
        } else {
            assert(self.data().contains_key(id));
        }
    }

    /// The handles listed below a node are nodes of the tree, none of them
    /// twice; each lies at or below the level of that node and climbs to it.
    proof fn lemma_handles_below(&self, top: NodeId, fuel: nat)
        requires
            self.wf(),
            self.data().contains_key(top),
            fuel == MAX_DEPTH - self.levels()[top],
        ensures
            handles_of(self.children(), top, fuel).no_duplicates(),
            forall|k: int|
                0 <= k < handles_of(self.children(), top, fuel).len() ==> {
                    let h = #[trigger] handles_of(self.children(), top, fuel)[k];
                    &&& self.data().contains_key(h)
                    &&& self.levels()[h] >= self.levels()[top]
                    &&& climb(self.parents(), h, (self.levels()[h] - self.levels()[top]) as nat)
                        == top
                },
        decreases fuel, 0nat,
    {
        let handles = handles_of(self.children(), top, fuel);
        if fuel > 0 {
            let ids = self.children()[top];
            let level = self.levels()[top] + 1;
            assert forall|i: int| 0 <= i < ids.len() implies self.data().contains_key(
                #[trigger] ids[i],
            ) && self.levels()[ids[i]] == level by {
                assert(self.parents().contains_key(self.children()[top][i]));
            }
            self.lemma_handles_below_all(ids, level, (fuel - 1) as nat);
            let all = handles_of_all(self.children(), ids, (fuel - 1) as nat);
            assert(handles =~= seq![top] + all);
            assert forall|k: int| 0 <= k < handles.len() implies {
                let h = #[trigger] handles[k];
                &&& self.data().contains_key(h)
                &&& self.levels()[h] >= self.levels()[top]
                &&& climb(self.parents(), h, (self.levels()[h] - self.levels()[top]) as nat)
                    == top
            } by {
                if k > 0 {
                    let h = all[k - 1];
                    assert(handles[k] == h);
                    let steps = (self.levels()[h] - level) as nat;
                    let under = climb(self.parents(), h, steps);
                    assert(ids.contains(under));
                    let m = choose|m: int| 0 <= m < ids.len() && ids[m] == under;
                    assert(self.parents().contains_key(self.children()[top][m]));
                    lemma_climb_step(self.parents(), h, steps);
                }
            }
            assert forall|i: int, j: int|
                0 <= i < handles.len() && 0 <= j < handles.len() && i != j implies handles[i]
                != handles[j] by {
                if i > 0 && j > 0 {
                    assert(all[i - 1] != all[j - 1]);
                } else if i == 0 {
                    assert(self.levels()[all[j - 1]] >= level);
                } else {
                    assert(self.levels()[all[i - 1]] >= level);
                }
            }
        }
    }

    /// The same for a row of nodes of one level: each listed handle climbs
    /// to one of them.
    proof fn lemma_handles_below_all(&self, ids: Seq<NodeId>, level: nat, fuel: nat)
        requires
            self.wf(),
            ids.no_duplicates(),
            forall|i: int|
                0 <= i < ids.len() ==> self.data().contains_key(#[trigger] ids[i])
                    && self.levels()[ids[i]] == level,
            fuel == MAX_DEPTH - level,
        ensures
            handles_of_all(self.children(), ids, fuel).no_duplicates(),
            forall|k: int|
                0 <= k < handles_of_all(self.children(), ids, fuel).len() ==> {
                    let h = #[trigger] handles_of_all(self.children(), ids, fuel)[k];
                    &&& self.data().contains_key(h)
                    &&& self.levels()[h] >= level
                    &&& ids.contains(
                        climb(self.parents(), h, (self.levels()[h] - level) as nat),
                    )
                },
        decreases fuel, ids.len() + 1,
    {
        if ids.len() > 0 {
            let before = handles_of_all(self.children(), ids.drop_last(), fuel);
            let last = handles_of(self.children(), ids.last(), fuel);
            let all = handles_of_all(self.children(), ids, fuel);
            assert forall|i: int| 0 <= i < ids.drop_last().len() implies self.data().contains_key(
                #[trigger] ids.drop_last()[i],
            ) && self.levels()[ids.drop_last()[i]] == level by {
                assert(ids.drop_last()[i] == ids[i]);
            }
            assert(ids.drop_last().no_duplicates()) by {
                assert forall|i: int, j: int|
                    0 <= i < ids.drop_last().len() && 0 <= j < ids.drop_last().len() && i
                        != j implies ids.drop_last()[i] != ids.drop_last()[j] by {
                    assert(ids.drop_last()[i] == ids[i]);
                    assert(ids.drop_last()[j] == ids[j]);
                }
            }
            self.lemma_handles_below_all(ids.drop_last(), level, fuel);
            assert(self.data().contains_key(ids[ids.len() - 1]));
            self.lemma_handles_below(ids.last(), fuel);
            assert(all =~= before + last);
            assert forall|k: int| 0 <= k < all.len() implies {
                let h = #[trigger] all[k];
                &&& self.data().contains_key(h)
                &&& self.levels()[h] >= level
                &&& ids.contains(climb(self.parents(), h, (self.levels()[h] - level) as nat))
            } by {
                if k < before.len() {
                    let h = before[k];
                    assert(all[k] == h);
                    let under = climb(self.parents(), h, (self.levels()[h] - level) as nat);
                    assert(ids.drop_last().contains(under));
                    let m = choose|m: int|
                        0 <= m < ids.drop_last().len() && ids.drop_last()[m] == under;
                    assert(ids[m] == under);
                } else {
                    let h = last[k - before.len()];
                    assert(all[k] == h);
                    assert(ids[ids.len() - 1] == ids.last());
                }
            }
            assert forall|i: int, j: int|
                0 <= i < before.len() && 0 <= j < last.len() implies before[i] != last[j] by {
                if before[i] == last[j] {
                    let h = before[i];
                    let under = climb(self.parents(), h, (self.levels()[h] - level) as nat);
                    assert(ids.drop_last().contains(under));
                    let m = choose|m: int|
                        0 <= m < ids.drop_last().len() && ids.drop_last()[m] == under;
                    assert(ids[m] == ids[ids.len() - 1]);
                }
            }
            vstd::seq_lib::lemma_no_dup_in_concat(before, last);
        }
    }

    /// With a listed node, its children are listed.
    proof fn lemma_children_are_listed(&self, top: NodeId, fuel: nat, parent: NodeId, child: NodeId)
        requires
            self.wf(),
            self.data().contains_key(top),
            fuel == MAX_DEPTH - self.levels()[top],
            handles_of(self.children(), top, fuel).contains(parent),
            self.parents().contains_key(child),
            self.parents()[child] == parent,
        ensures
            handles_of(self.children(), top, fuel).contains(child),
        decreases fuel,
    {
        let handles = handles_of(self.children(), top, fuel);
        let ids = self.children()[top];
        let all = handles_of_all(self.children(), ids, (fuel - 1) as nat);
        let at = choose|k: int| 0 <= k < handles.len() && handles[k] == parent;
        assert forall|i: int| 0 <= i < ids.len() implies self.data().contains_key(
            #[trigger] ids[i],
        ) && self.levels()[ids[i]] == self.levels()[top] + 1 by {
            assert(self.parents().contains_key(self.children()[top][i]));
        }
        if parent == top {
            assert(self.levels()[child] == self.levels()[top] + 1);
            assert(self.data().contains_key(child));
            assert(fuel > 0);
            let m = choose|m: int| 0 <= m < ids.len() && ids[m] == child;
            assert(handles_of(self.children(), ids[m], (fuel - 1) as nat)[0] == child);
            assert(handles_of(self.children(), ids[m], (fuel - 1) as nat).contains(child));
            lemma_handles_of_all_member(self.children(), ids, (fuel - 1) as nat, child);
            assert(all.contains(child));
        } else {
            assert(at > 0);
            assert(fuel > 0);
            assert(handles =~= seq![top] + all);
            assert(all[at - 1] == parent);
            lemma_handles_of_all_member(self.children(), ids, (fuel - 1) as nat, parent);
            let k = choose|k: int|
                0 <= k < ids.len() && #[trigger] handles_of(
                    self.children(),
                    ids[k],
                    (fuel - 1) as nat,
                ).contains(parent);
            self.lemma_children_are_listed(ids[k], (fuel - 1) as nat, parent, child);
            assert(handles_of(self.children(), ids[k], (fuel - 1) as nat).contains(child));
            lemma_handles_of_all_member(self.children(), ids, (fuel - 1) as nat, child);
            assert(all.contains(child));
        }
        assert(handles =~= seq![top] + all);
        if all.contains(child) {
            let j = choose|j: int| 0 <= j < all.len() && all[j] == child;
            assert(handles[j + 1] == child);
        }
    }

    /// Every node of the tree is listed below the root.
    proof fn lemma_every_node_is_listed(&self, id: NodeId)
        requires
            self.wf(),
            self.data().contains_key(id),
        ensures
            handles_of(self.children(), self.root_id(), MAX_DEPTH as nat).contains(id),
        decreases self.levels()[id],
    {
        let handles = handles_of(self.children(), self.root_id(), MAX_DEPTH as nat);
        if id == self.root_id() {
            assert(handles[0] == id);
        } else {
            assert(self.parents().contains_key(id));
            let parent = self.parents()[id];
            self.lemma_every_node_is_listed(parent);
            self.lemma_children_are_listed(self.root_id(), MAX_DEPTH as nat, parent, id);
        }
    }

    /// What holds of the value of every well-formed tree: no node lies
    /// deeper than `MAX_DEPTH`, no identifier is used twice, and the
    /// identifiers that the tree finds are those of its nodes.
    pub proof fn lemma_view_is_valid(&self)
        requires
            self.wf(),
        ensures
            self@.height() <= MAX_DEPTH,
            self@.uuids().no_duplicates(),
            forall|uuid: u32| self.has(uuid) <==> self@.uuids().contains(uuid),
    {
        let handles = handles_of(self.children(), self.root_id(), MAX_DEPTH as nat);
        let uuids = self@.uuids();
        lemma_uuids_of_subtree(self.data(), self.children(), self.root_id(), MAX_DEPTH as nat);
        self.lemma_handles_below(self.root_id(), MAX_DEPTH as nat);
        assert(uuids == uuids_at(self.data(), handles));
        assert forall|i: int, j: int|
            0 <= i < uuids.len() && 0 <= j < uuids.len() && i != j implies uuids[i]
            != uuids[j] by {
            assert(self.data().contains_key(handles[i]));
            assert(self.data().contains_key(handles[j]));
        }
        assert forall|uuid: u32| self.has(uuid) <==> uuids.contains(uuid) by {
            if self.has(uuid) {
                let id = self.index()[uuid];
                assert(self.index().contains_key(uuid));
                self.lemma_every_node_is_listed(id);
                let k = choose|k: int| 0 <= k < handles.len() && handles[k] == id;
                assert(uuids[k] == uuid);
            }
            if uuids.contains(uuid) {
                let k = choose|k: int| 0 <= k < uuids.len() && uuids[k] == uuid;
                assert(self.data().contains_key(handles[k]));
            }
        }
    }

    /// Storing under a handle another node with the same identifier changes
    /// the value below any node in that one place.
    proof fn lemma_subtree_with_node(&self, top: NodeId, fuel: nat, id: NodeId, node: Node)
        requires
            self.wf(),
            self.data().contains_key(top),
            fuel == MAX_DEPTH - self.levels()[top],
            self.data().contains_key(id),
            node@.uuid == self.data()[id]@.uuid,
        ensures
            subtree_of(self.data().insert(id, node), self.children(), top, fuel) == subtree_of(
                self.data(),
                self.children(),
                top,
                fuel,
            ).with_node(node@.uuid, node@),
        decreases fuel,
    {
        let changed = self.data().insert(id, node);
        let before = subtree_of(self.data(), self.children(), top, fuel);
        let after = subtree_of(changed, self.children(), top, fuel);
        let wanted = before.with_node(node@.uuid, node@);
        let kids = self.children()[top];
        crate::scene::lemma_with_node_in_all(before.children, node@.uuid, node@);
        if fuel > 0 {
            assert forall|i: int| 0 <= i < kids.len() implies #[trigger] after.children[i]
                == wanted.children[i] by {
                assert(self.parents().contains_key(self.children()[top][i]));
                self.lemma_subtree_with_node(kids[i], (fuel - 1) as nat, id, node);
            }
        }
        assert(after.children =~= wanted.children);
        if top != id {
            assert(self.index()[self.data()[top]@.uuid] == top);
            assert(self.index()[self.data()[id]@.uuid] == id);
        }
    }

    /// A tree that holds `node` as its root and nothing else.
    pub fn new(node: Node) -> (tree: NodeTree)
        ensures
            tree.wf(),
            tree@ == (TreeView { node: node@, children: Seq::empty() }),
            tree.root_uuid() == node@.uuid,
            tree.levels()[tree.root_id()] == 0,
            tree.data() == (Map::<NodeId, Node>::empty().insert(tree.root_id(), node)),
            tree.children() == (Map::<NodeId, Seq<NodeId>>::empty().insert(
                tree.root_id(),
                Seq::empty(),
            )),
            tree.index() == (Map::<u32, NodeId>::empty().insert(node@.uuid, tree.root_id())),
    {
        let ghost view = node@;
        let uuid = node.uuid();
        let mut arena = arena_new();
        let root = arena_new_node(&mut arena, node);
        let mut uuids: BTreeMap<u32, NodeId> = BTreeMap::new();
        uuids.insert(uuid.0, root);
        let tree = NodeTree { root, arena, uuids, levels: Ghost(Map::empty().insert(root, 0nat)) };
        proof {
            assert(tree.data().dom() =~= set![root]);
            assert(tree.children()[root] =~= Seq::<NodeId>::empty());
            assert(tree@.children =~= Seq::<TreeView>::empty());
        }
        tree
    }

    /// Whether this tree is `before` with nodes added below `at` and nothing
    /// else changed: the nodes of `before` keep their values and levels, all
    /// but `at` keep their children, and no added node has a child among
    /// the nodes of `before`.
    pub closed spec fn grown_from(&self, before: &NodeTree, at: NodeId) -> bool {
        &&& self.root_id() == before.root_id()
        &&& forall|x: NodeId| #[trigger]
            before.data().contains_key(x) ==> self.data().contains_key(x) && self.data()[x]
                == before.data()[x] && self.levels()[x] == before.levels()[x]
        &&& forall|x: NodeId|
            before.data().contains_key(x) && x != at ==> #[trigger] self.children()[x]
                == before.children()[x]
        &&& forall|x: NodeId, i: int|
            self.data().contains_key(x) && !before.data().contains_key(x) && 0 <= i
                < self.children()[x].len() ==> !before.data().contains_key(
                #[trigger] self.children()[x][i],
            )
    }

    /// Stores `node` as the last child of `parent`, unless the tree already
    /// holds a node with its identifier.
    fn attach(&mut self, parent: NodeId, node: Node) -> (res: Result<NodeId, PuppetError>)
        requires
            old(self).wf(),
            old(self).data().contains_key(parent),
            old(self).levels()[parent] < MAX_DEPTH,
        ensures
            match res {
                Ok(id) => {
                    &&& final(self).wf()
                    &&& !old(self).data().contains_key(id)
                    &&& !old(self).index().contains_key(node@.uuid)
                    &&& final(self).root_id() == old(self).root_id()
                    &&& final(self).data() == old(self).data().insert(id, node)
                    &&& final(self).children() == old(self).children().insert(
                        id,
                        Seq::empty(),
                    ).insert(parent, old(self).children()[parent].push(id))
                    &&& final(self).index() == old(self).index().insert(node@.uuid, id)
                    &&& final(self).levels() == old(self).levels().insert(
                        id,
                        old(self).levels()[parent] + 1,
                    )
                },
                Err(e) => e == PuppetError::DuplicateExternalId && old(self).index().contains_key(
                    node@.uuid,
                ),
            },
    {
        let uuid = node.uuid();
        if self.uuids.contains_key(&uuid.0) {
            return Err(PuppetError::DuplicateExternalId);
        }
        let ghost level = self.levels@[parent] + 1;
        let id = arena_new_node(&mut self.arena, node);
        self.uuids.insert(uuid.0, id);
        arena_append(&mut self.arena, parent, id);
        self.levels = Ghost(self.levels@.insert(id, level));
        proof {
            let before = old(self).children();
            assert(!before[parent].contains(id)) by {
                if before[parent].contains(id) {
                    let k = choose|k: int| 0 <= k < before[parent].len() && before[parent][k] == id;
                    assert(old(self).parents().contains_key(before[parent][k]));
                }
            }
            assert(self.children() =~= before.insert(id, Seq::empty()).insert(
                parent,
                before[parent].push(id),
            ));
            assert forall|x: NodeId, i: int|
                self.data().contains_key(x) && 0 <= i < self.children()[x].len() implies self.parents().contains_key(
                #[trigger] self.children()[x][i],
            ) && self.parents()[self.children()[x][i]] == x by {
                if x == parent && i == before[parent].len() {
                } else {
                    assert(old(self).parents().contains_key(before[x][i]));
                }
            }
            assert forall|x: NodeId| #[trigger] self.parents().contains_key(x) implies self.data().contains_key(
                x,
            ) && self.data().contains_key(self.parents()[x]) && self.levels()[x]
                == self.levels()[self.parents()[x]] + 1 && self.children()[self.parents()[x]].contains(
                x,
            ) by {
                if x == id {
                    assert(self.children()[parent][before[parent].len() as int] == id);
                } else {
                    assert(old(self).parents().contains_key(x));
                    let p = old(self).parents()[x];
                    let k = choose|k: int| 0 <= k < before[p].len() && before[p][k] == x;
                    assert(self.children()[p][k] == x);
                }
            }
            assert forall|x: NodeId| #[trigger] self.data().contains_key(x) implies self.index().contains_key(
                self.data()[x]@.uuid,
            ) && self.index()[self.data()[x]@.uuid] == x by {
                if x != id {
                    assert(old(self).data().contains_key(x));
                }
            }
            assert forall|x: NodeId| #[trigger] self.data().contains_key(x) implies self.children()[x].no_duplicates()
                && self.levels().contains_key(x) && self.levels()[x] <= MAX_DEPTH by {
                if x != id {
                    assert(old(self).data().contains_key(x));
                }
            }
        }
        Ok(id)
    }

    /// Moves the subtrees of `scene` below the node `id`, which holds the
    /// node of `scene` and has no children yet. `seen` lists the
    /// identifiers that the tree holds so far; the walk fails at the first
    /// identifier that repeats one of them or one met earlier.
    fn flatten_children(
        &mut self,
        id: NodeId,
        scene: &SceneNode,
        Ghost(seen): Ghost<Seq<u32>>,
    ) -> (res: Result<(), PuppetError>)
        requires
            old(self).wf(),
            old(self).data().contains_key(id),
            old(self).data()[id]@ == scene@.node,
            old(self).children()[id].len() == 0,
            old(self).levels()[id] + scene@.height() <= MAX_DEPTH,
            forall|u: u32| old(self).index().contains_key(u) <==> seen.contains(u),
            seen.no_duplicates(),
        ensures
            match res {
                Ok(_) => {
                    &&& final(self).wf()
                    &&& final(self).grown_from(old(self), id)
                    &&& forall|j: int|
                        0 <= j < final(self).children()[id].len() ==> !old(self).data().contains_key(
                            #[trigger] final(self).children()[id][j],
                        )
                    &&& subtree_of(
                        final(self).data(),
                        final(self).children(),
                        id,
                        (MAX_DEPTH - final(self).levels()[id]) as nat,
                    ) == scene@
                    &&& forall|u: u32|
                        final(self).index().contains_key(u) <==> (seen + uuids_of_all(
                            scene@.children,
                        )).contains(u)
                    &&& (seen + uuids_of_all(scene@.children)).no_duplicates()
                },
                Err(e) => e == PuppetError::DuplicateExternalId && !(seen + uuids_of_all(
                    scene@.children,
                )).no_duplicates(),
            },
        decreases scene,
    {
        let ghost trees = scene@.children;
        let ghost fuel = (MAX_DEPTH - self.levels()[id]) as nat;
        proof {
            scene.lemma_view();
            assert(trees.take(0) =~= Seq::<TreeView>::empty());
            assert(seen + uuids_of_all(trees.take(0)) =~= seen);
        }
        let mut i: usize = 0;
        while i < scene.children.len()
            invariant
                i <= scene.children@.len(),
                trees == scene@.children,
                trees.len() == scene.children@.len(),
                fuel == MAX_DEPTH - old(self).levels()[id],
                old(self).wf(),
                old(self).data().contains_key(id),
                old(self).levels()[id] + scene@.height() <= MAX_DEPTH,
                self.wf(),
                self.grown_from(old(self), id),
                self.children()[id].len() == i,
                forall|j: int|
                    0 <= j < i ==> !old(self).data().contains_key(#[trigger] self.children()[id][j]),
                forall|j: int|
                    0 <= j < i ==> #[trigger] subtree_of(
                        self.data(),
                        self.children(),
                        self.children()[id][j],
                        (fuel - 1) as nat,
                    ) == trees[j],
                forall|u: u32|
                    self.index().contains_key(u) <==> (seen + uuids_of_all(
                        trees.take(i as int),
                    )).contains(u),
                (seen + uuids_of_all(trees.take(i as int))).no_duplicates(),
            decreases scene.children@.len() - i,
        {
            let child = &scene.children[i];
            let ghost seen_here = seen + uuids_of_all(trees.take(i as int));
            let ghost start = *self;
            proof {
                scene.lemma_view();
                child.lemma_view();
                crate::scene::lemma_max_height_bounds(trees, i as int);
                let next = trees.take(i + 1);
                assert(next.drop_last() =~= trees.take(i as int));
                assert(next.last() == trees[i as int]);
                assert(trees[i as int] == child@);
                assert(child@.uuids() =~= seq![child@.node.uuid] + uuids_of_all(child@.children));
                assert(uuids_of_all(next) == uuids_of_all(trees.take(i as int)) + child@.uuids());
                assert(seen + uuids_of_all(next) =~= seen_here.push(child@.node.uuid)
                    + uuids_of_all(child@.children));
                lemma_uuids_of_all_prefix(trees, i + 1);
                let whole = seen + uuids_of_all(trees);
                let part = seen + uuids_of_all(next);
                assert(whole.take(part.len() as int) =~= part);
                if !part.no_duplicates() {
                    lemma_duplicate_in_prefix(whole, part.len() as int);
                }
            }
            let node = child.node.duplicate();
            let cu = Ghost(child@.node.uuid);
            let c = match self.attach(id, node) {
                Ok(c) => c,
                Err(e) => {
                    proof {
                        let part = seen + uuids_of_all(trees.take(i + 1));
                        let k = choose|k: int| 0 <= k < seen_here.len() && seen_here[k] == cu@;
                        assert(part[k] == cu@);
                        assert(part[seen_here.len() as int] == cu@);
                    }
                    return Err(e);
                },
            };
            let ghost mid = *self;
            proof {
                let pushed = seen_here.push(cu@);
                assert forall|u: u32| self.index().contains_key(u) <==> pushed.contains(u) by {
                    vstd::seq_lib::lemma_seq_contains_after_push(seen_here, cu@, u);
                }
                assert(pushed.no_duplicates());
            }
            match self.flatten_children(c, child, Ghost(seen_here.push(cu@))) {
                Ok(_) => {},
                Err(e) => {
                    return Err(e);
                },
            }
            proof {
                let keep = Set::new(
                    |x: NodeId| start.data().contains_key(x) && !old(self).data().contains_key(x),
                );
                assert forall|x: NodeId| #[trigger] keep.contains(x) implies self.data()[x]
                    == start.data()[x] && self.children()[x] == start.children()[x] by {
                    assert(mid.data().contains_key(x));
                    assert(x != c);
                    assert(x != id);
                    assert(mid.children()[x] == start.children()[x]);
                }
                assert forall|x: NodeId, k: int|
                    keep.contains(x) && 0 <= k < start.children()[x].len() implies keep.contains(
                    #[trigger] start.children()[x][k],
                ) by {
                    assert(start.parents().contains_key(start.children()[x][k]));
                }
                assert(mid.data().contains_key(id));
                assert(self.children()[id] == mid.children()[id]);
                assert(mid.children()[id] == start.children()[id].push(c));
                assert forall|j: int| 0 <= j < i + 1 implies #[trigger] subtree_of(
                    self.data(),
                    self.children(),
                    self.children()[id][j],
                    (fuel - 1) as nat,
                ) == trees[j] by {
                    if j < i {
                        let handle = start.children()[id][j];
                        assert(start.parents().contains_key(handle));
                        assert(keep.contains(handle));
                        lemma_subtree_frame(
                            start.data(),
                            start.children(),
                            self.data(),
                            self.children(),
                            keep,
                            handle,
                            (fuel - 1) as nat,
                        );
                    } else {
                        assert(self.children()[id][j] == c);
                        assert(self.levels()[c] == mid.levels()[c]);
                    }
                }
                assert forall|x: NodeId, k: int|
                    self.data().contains_key(x) && !old(self).data().contains_key(x) && 0 <= k
                        < self.children()[x].len() implies !old(self).data().contains_key(
                    #[trigger] self.children()[x][k],
                ) by {
                    let y = self.children()[x][k];
                    if mid.data().contains_key(x) {
                        if x == c {
                            assert(!mid.data().contains_key(y));
                        } else {
                            assert(keep.contains(x));
                            assert(start.children()[x][k] == y);
                        }
                    } else {
                        assert(!mid.data().contains_key(y));
                    }
                    if old(self).data().contains_key(y) {
                        assert(start.data().contains_key(y));
                        assert(mid.data().contains_key(y));
                    }
                }
                assert forall|x: NodeId| #[trigger]
                    old(self).data().contains_key(x) implies self.data().contains_key(x)
                    && self.data()[x] == old(self).data()[x] && self.levels()[x] == old(
                    self,
                ).levels()[x] by {
                    assert(start.data().contains_key(x));
                    assert(mid.data().contains_key(x));
                }
                assert forall|x: NodeId|
                    old(self).data().contains_key(x) && x != id implies #[trigger] self.children()[x]
                    == old(self).children()[x] by {
                    assert(start.data().contains_key(x));
                    assert(mid.data().contains_key(x));
                    assert(x != c);
                    assert(mid.children()[x] == start.children()[x]);
                }
                assert forall|j: int| 0 <= j < i + 1 implies !old(self).data().contains_key(
                    #[trigger] self.children()[id][j],
                ) by {
                    if j == i {
                        assert(self.children()[id][j] == c);
                        if old(self).data().contains_key(c) {
                            assert(start.data().contains_key(c));
                        }
                    } else {
                        assert(self.children()[id][j] == start.children()[id][j]);
                    }
                }
            }
            i += 1;
        }
        proof {
            assert(trees.take(i as int) =~= trees);
            scene.lemma_view();
            let below = subtree_of(self.data(), self.children(), id, fuel).children;
            if fuel == 0 {
                assert(trees =~= below);
            } else {
                assert(below.len() == trees.len());
                assert forall|j: int| 0 <= j < below.len() implies below[j] == trees[j] by {
                    assert(subtree_of(
                        self.data(),
                        self.children(),
                        self.children()[id][j],
                        (fuel - 1) as nat,
                    ) == trees[j]);
                }
                assert(below =~= trees);
            }
        }
        Ok(())
    }

    /// Builds the tree that `scene` describes: each node stored once, each
    /// linked below its parent in declaration order, each found by its
    /// identifier. A scene that uses an identifier twice, wherever the two
    /// nodes stand, is refused as such and no tree is built; otherwise a
    /// scene deeper than `MAX_DEPTH` is refused as malformed.
    pub fn build(scene: &SceneNode) -> (res: Result<NodeTree, PuppetError>)
        ensures
            match res {
                Ok(tree) => {
                    &&& tree.wf()
                    &&& tree@ == scene@
                    &&& scene@.height() <= MAX_DEPTH
                    &&& scene@.uuids().no_duplicates()
                    &&& forall|u: u32| tree.has(u) <==> scene@.uuids().contains(u)
                },
                Err(e) => if !scene@.uuids().no_duplicates() {
                    e == PuppetError::DuplicateExternalId
                } else {
                    e == PuppetError::InvalidSceneStructure && scene@.height() > MAX_DEPTH
                },
            },
    {
        if !scene.has_distinct_uuids() {
            return Err(PuppetError::DuplicateExternalId);
        }
        if !scene.fits_depth(MAX_DEPTH) {
            return Err(PuppetError::InvalidSceneStructure);
        }
        proof {
            scene.lemma_view();
        }
        let mut tree = NodeTree::new(scene.node.duplicate());
        let root = tree.root;
        let ghost seen = seq![scene@.node.uuid];
        proof {
            assert(tree.data().dom() =~= set![root]);
            assert(tree.children()[root] =~= Seq::<NodeId>::empty());
            assert(tree.index() =~= Map::<u32, NodeId>::empty().insert(scene@.node.uuid, root));
            assert(seen[0] == scene@.node.uuid);
            assert forall|u: u32| tree.index().contains_key(u) <==> seen.contains(u) by {
                if seen.contains(u) {
                    let k = choose|k: int| 0 <= k < seen.len() && seen[k] == u;
                }
            }
        }
        tree.flatten_children(root, scene, Ghost(seen))?;
        Ok(tree)
    }

    fn get_internal_node(&self, uuid: NodeUuid) -> (res: Option<NodeId>)
        requires
            self.wf(),
        ensures
            res is Some == self.has(uuid.0),
            res is Some ==> res->Some_0 == self.index()[uuid.0] && self.data().contains_key(
                res->Some_0,
            ),
    {
        match self.uuids.get(&uuid.0) {
            Some(id) => Some(*id),
            None => None,
        }
    }

    /// The identifier of the root.
    pub fn root(&self) -> (uuid: NodeUuid)
        requires
            self.wf(),
        ensures
            uuid.0 == self.root_uuid(),
    {
        match arena_get(&self.arena, self.root) {
            Some(node) => node.uuid(),
            None => unreached(),
        }
    }

    /// The node with identifier `uuid`, if the tree holds one.
    pub fn get_node(&self, uuid: NodeUuid) -> (res: Option<&Node>)
        requires
            self.wf(),
        ensures
            res is Some == self.has(uuid.0),
            res is Some ==> *res->Some_0 == self.node_of(uuid.0) && res->Some_0@.uuid == uuid.0,
    {
        let id = self.get_internal_node(uuid)?;
        arena_get(&self.arena, id)
    }

    /// The node with identifier `uuid`, if the tree holds one, to be changed
    /// in place. The tree stays well formed as long as the node keeps its
    /// identifier.
    pub fn get_node_mut(&mut self, uuid: NodeUuid) -> (res: Option<&mut Node>)
        requires
            old(self).wf(),
        ensures
            res is Some == old(self).has(uuid.0),
            res is Some ==> *res->Some_0 == old(self).node_of(uuid.0),
            res is Some ==> final(self).data() == old(self).data().insert(
                old(self).index()[uuid.0],
                *final(res->Some_0),
            ),
            res is None ==> final(self).data() == old(self).data(),
            final(self).parents() == old(self).parents(),
            final(self).children() == old(self).children(),
            final(self).index() == old(self).index(),
            final(self).levels() == old(self).levels(),
            final(self).root_id() == old(self).root_id(),
            res is Some && final(res->Some_0)@.uuid == uuid.0 ==> final(self).wf(),
            res is None ==> final(self).wf(),
            forall|other: u32| final(self).has(other) == old(self).has(other),
            res is Some ==> final(self).node_of(uuid.0) == *final(res->Some_0),
            forall|other: u32|
                other != uuid.0 && old(self).has(other) ==> #[trigger] final(self).node_of(other)
                    == old(self).node_of(other),
            res is Some && final(res->Some_0)@.uuid == uuid.0 ==> forall|other: u32|
                old(self).has(other) ==> #[trigger] final(self).parent_of(other)
                    == old(self).parent_of(other),
            res is Some && final(res->Some_0)@.uuid == uuid.0 ==> forall|other: u32|
                old(self).has(other) ==> #[trigger] final(self).children_of(other)
                    =~= old(self).children_of(other),
            res is Some && final(res->Some_0)@.uuid == uuid.0 ==> final(self)@
                == old(self)@.with_node(uuid.0, final(res->Some_0)@),
            res is None ==> final(self)@ == old(self)@,
    {
        proof {
            if self.has(uuid.0) {
                let id = self.index()[uuid.0];
                assert(self.index().contains_key(uuid.0));
                assert forall|node: Node| node@.uuid == uuid.0 implies subtree_of(
                    #[trigger] self.data().insert(id, node),
                    self.children(),
                    self.root_id(),
                    MAX_DEPTH as nat,
                ) == self@.with_node(uuid.0, node@) by {
                    self.lemma_subtree_with_node(self.root_id(), MAX_DEPTH as nat, id, node);
                }
            }
            assert forall|other: u32| #[trigger] self.has(other) implies self.data().contains_key(
                self.index()[other],
            ) && (other != uuid.0 && self.has(uuid.0) ==> self.index()[other]
                != self.index()[uuid.0]) by {
                assert(self.index().contains_key(other));
                if self.has(uuid.0) {
                    assert(self.index().contains_key(uuid.0));
                }
            }
            assert forall|other: u32, i: int|
                self.has(other) && 0 <= i < self.children()[self.index()[other]].len() implies self.data().contains_key(
                #[trigger] self.children()[self.index()[other]][i],
            ) by {
                assert(self.index().contains_key(other));
                assert(self.parents().contains_key(self.children()[self.index()[other]][i]));
            }
            assert forall|other: u32|
                self.has(other) && self.parents().contains_key(
                    self.index()[other],
                ) implies self.data().contains_key(#[trigger] self.parents()[self.index()[other]]) by {
                assert(self.parents().contains_key(self.index()[other]));
            }
        }
        match self.uuids.get(&uuid.0) {
            Some(id) => arena_get_mut(&mut self.arena, *id),
            None => None,
        }
    }

    /// The parent of the node with identifier `uuid`: nothing when the tree
    /// holds no such node, and nothing for the root.
    pub fn get_parent(&self, uuid: NodeUuid) -> (res: Option<&Node>)
        requires
            self.wf(),
        ensures
            res is Some == (self.has(uuid.0) && self.parent_of(uuid.0) is Some),
            res is Some ==> res->Some_0@.uuid == self.parent_of(uuid.0)->Some_0
                && *res->Some_0 == self.node_of(res->Some_0@.uuid),
    {
        let id = self.get_internal_node(uuid)?;
        let parent = arena_parent_of(&self.arena, id)?;
        arena_get(&self.arena, parent)
    }

    /// The identifiers of the children of the node with identifier `uuid`,
    /// in declaration order, if the tree holds such a node.
    pub fn get_children_uuids(&self, uuid: NodeUuid) -> (res: Option<Vec<NodeUuid>>)
        requires
            self.wf(),
        ensures
            res is Some == self.has(uuid.0),
            res is Some ==> uuid_values(res->Some_0@) == self.children_of(uuid.0),
    {
        let id = self.get_internal_node(uuid)?;
        let ids = arena_children_of(&self.arena, id);
        let uuids = self.uuids_of_handles(&ids);
        proof {
            assert(uuid_values(uuids@) =~= self.children_of(uuid.0));
        }
        Some(uuids)
    }

    /// The identifier of the node under each of `ids`.
    fn uuids_of_handles(&self, ids: &Vec<NodeId>) -> (res: Vec<NodeUuid>)
        requires
            forall|i: int| 0 <= i < ids@.len() ==> self.data().contains_key(#[trigger] ids@[i]),
        ensures
            res@.len() == ids@.len(),
            forall|i: int| 0 <= i < ids@.len() ==> (#[trigger] res@[i]).0 == self.data()[ids@[i]]@.uuid,
    {
        let mut uuids: Vec<NodeUuid> = Vec::new();
        let mut i: usize = 0;
        while i < ids.len()
            invariant
                i <= ids@.len(),
                uuids@.len() == i,
                forall|j: int| 0 <= j < ids@.len() ==> self.data().contains_key(#[trigger] ids@[j]),
                forall|j: int| 0 <= j < i ==> (#[trigger] uuids@[j]).0 == self.data()[ids@[j]]@.uuid,
            decreases ids@.len() - i,
        {
            assert(self.data().contains_key(ids@[i as int]));
            match arena_get(&self.arena, ids[i]) {
                Some(node) => {
                    uuids.push(node.uuid());
                },
                None => unreached(),
            }
            i += 1;
        }
        uuids
    }

    /// Whether `chain` lists the ancestors of the node with identifier
    /// `uuid`: its parent first, then that node's parent, and so on, ending
    /// with the root. The root itself has no ancestors.
    pub open spec fn is_ancestor_chain(&self, uuid: u32, chain: Seq<u32>) -> bool {
        if chain.len() == 0 {
            self.parent_of(uuid) is None
        } else {
            &&& self.parent_of(uuid) == Some(chain[0])
            &&& forall|i: int|
                0 <= i < chain.len() - 1 ==> self.parent_of(#[trigger] chain[i]) == Some(
                    chain[i + 1],
                )
            &&& self.parent_of(chain.last()) is None
            &&& chain.last() == self.root_uuid()
        }
    }

    /// The identifiers of the ancestors of the node with identifier `uuid`,
    /// from its parent up to the root; empty when the tree holds no such
    /// node. Every call walks the tree anew.
    pub fn ancestors(&self, uuid: NodeUuid) -> (res: Vec<NodeUuid>)
        requires
            self.wf(),
        ensures
            !self.has(uuid.0) ==> res@.len() == 0,
            self.has(uuid.0) ==> self.is_ancestor_chain(uuid.0, uuid_values(res@)),
    {
        let id = match self.get_internal_node(uuid) {
            Some(id) => id,
            None => {
                return Vec::new();
            },
        };
        let mut ids = arena_ancestors(&self.arena, id);
        proof {
            assert forall|i: int| 0 <= i < ids@.len() implies self.data().contains_key(
                #[trigger] ids@[i],
            ) by {
                self.lemma_chain_is_live(ids@, i);
            }
        }
        let ghost all = ids@;
        ids.remove(0);
        let chain = self.uuids_of_handles(&ids);
        proof {
            let values = uuid_values(chain@);
            assert forall|i: int| 0 <= i < ids@.len() implies ids@[i] == all[i + 1] by {}
            if values.len() > 0 {
                assert(values[0] == self.data()[all[1]]@.uuid);
                assert(self.parents()[all[0]] == all[1]);
                assert forall|i: int| 0 <= i < values.len() - 1 implies self.parent_of(
                    #[trigger] values[i],
                ) == Some(values[i + 1]) by {
                    assert(self.parents()[all[i + 1]] == all[i + 2]);
                    assert(values[i] == self.data()[all[i + 1]]@.uuid);
                    assert(values[i + 1] == self.data()[all[i + 2]]@.uuid);
                }
                assert(values.last() == self.data()[all.last()]@.uuid);
                assert(self.data().contains_key(all.last()));
            }
        }
        chain
    }

    /// The nodes that the draw order visits from the node `id` down, each
    /// with its effective weight, in pre-order. `zsort` is the effective
    /// weight of the parent of `id`. Below a composite node nothing is
    /// visited.
    fn rec_zsorts_from_root(&self, id: NodeId, zsort: Option<i128>) -> (res: Vec<
        (NodeUuid, Option<i128>),
    >)
        requires
            self.wf(),
            self.data().contains_key(id),
            zsort is Some ==> -self.levels()[id] * 0x8000_0000_0000_0000 <= zsort->Some_0
                <= self.levels()[id] * 0x8000_0000_0000_0000,
        ensures
            entry_values(res@) == subtree_of(
                self.data(),
                self.children(),
                id,
                (MAX_DEPTH - self.levels()[id]) as nat,
            ).draw_entries(
                match zsort {
                    Some(z) => Some(z as int),
                    None => None,
                },
            ),
        decreases MAX_DEPTH - self.levels()[id],
    {
        let ghost base: Option<int> = match zsort {
            Some(z) => Some(z as int),
            None => None,
        };
        let ghost fuel = (MAX_DEPTH - self.levels()[id]) as nat;
        let ghost tree = subtree_of(self.data(), self.children(), id, fuel);
        let node = match arena_get(&self.arena, id) {
            Some(node) => node,
            None => unreached(),
        };
        let own = node.zsort();
        let sum: Option<i128> = match (zsort, own) {
            (Some(z), ZSort::Value(w)) => Some(z + w as i128),
            _ => None,
        };
        let ghost total = add_weight(base, own);
        let mut entries: Vec<(NodeUuid, Option<i128>)> = Vec::new();
        entries.push((node.uuid(), sum));
        assert(entry_values(entries@) =~= seq![(tree.node.uuid, total)]);
        if node.is_composite() {
            return entries;
        }
        let kids = arena_children_of(&self.arena, id);
        proof {
            if fuel == 0 && kids@.len() > 0 {
                assert(self.parents().contains_key(self.children()[id][0]));
            }
            assert(tree.children.take(0) =~= Seq::<TreeView>::empty());
            assert(entry_values(entries@) =~= seq![(tree.node.uuid, total)] + draw_entries_of_all(
                tree.children.take(0),
                total,
            ));
        }
        let mut i: usize = 0;
        while i < kids.len()
            invariant
                i <= kids@.len(),
                self.wf(),
                self.data().contains_key(id),
                kids@ == self.children()[id],
                fuel == MAX_DEPTH - self.levels()[id],
                tree == subtree_of(self.data(), self.children(), id, fuel),
                tree.children.len() == kids@.len(),
                total == (match sum {
                    Some(z) => Some(z as int),
                    None => None,
                }),
                sum is Some ==> -(self.levels()[id] + 1) * 0x8000_0000_0000_0000 <= sum->Some_0 <= (
                self.levels()[id] + 1) * 0x8000_0000_0000_0000,
                entry_values(entries@) == seq![(tree.node.uuid, total)] + draw_entries_of_all(
                    tree.children.take(i as int),
                    total,
                ),
            decreases kids@.len() - i,
        {
            let kid = kids[i];
            let ghost before = entry_values(entries@);
            proof {
                assert(self.parents().contains_key(self.children()[id][i as int]));
            }
            let mut below = self.rec_zsorts_from_root(kid, sum);
            let ghost added = entry_values(below@);
            entries.append(&mut below);
            proof {
                let next = tree.children.take(i + 1);
                assert(next.drop_last() =~= tree.children.take(i as int));
                assert(next.last() == tree.children[i as int]);
                assert(entry_values(entries@) =~= before + added);
                assert(before + added =~= seq![(tree.node.uuid, total)] + draw_entries_of_all(
                    next,
                    total,
                ));
            }
            i += 1;
        }
        assert(tree.children.take(i as int) =~= tree.children);
        entries
    }

    /// The identifiers of the nodes in the order in which they are drawn.
    /// One pre-order walk from the root gives every visited node its
    /// effective weight, the sum of the own weights from the root down to
    /// it; the walk does not go below a composite node. The visited nodes
    /// are then sorted by effective weight, greatest first, nodes of equal
    /// weight staying in the order of the walk.
    pub fn zsorted(&self) -> (res: Result<Vec<NodeUuid>, PuppetError>)
        requires
            self.wf(),
        ensures
            match res {
                Ok(uuids) => order_of(self@.draw_entries(Some(0))) == Ok::<Seq<u32>, PuppetError>(
                    uuid_values(uuids@),
                ),
                Err(e) => order_of(self@.draw_entries(Some(0))) == Err::<Seq<u32>, PuppetError>(e),
            },
    {
        let uuid_zsorts = self.rec_zsorts_from_root(self.root, Some(0));
        sort_uuids_by_zsort(uuid_zsorts)
    }

    /// Appends to `rows` the node `id` and then, in pre-order, the nodes
    /// below it, each with its level; `indent` is the level of `id`.
    fn rec_outline(&self, id: NodeId, indent: usize, rows: &mut Vec<(usize, Node)>)
        requires
            self.wf(),
            self.data().contains_key(id),
            indent == self.levels()[id],
        ensures
            outline_values(final(rows)@) == outline_values(old(rows)@) + subtree_of(
                self.data(),
                self.children(),
                id,
                (MAX_DEPTH - self.levels()[id]) as nat,
            ).outline(indent as nat),
        decreases MAX_DEPTH - self.levels()[id],
    {
        let ghost fuel = (MAX_DEPTH - self.levels()[id]) as nat;
        let ghost tree = subtree_of(self.data(), self.children(), id, fuel);
        let ghost given = outline_values(rows@);
        let node = match arena_get(&self.arena, id) {
            Some(node) => node.duplicate(),
            None => unreached(),
        };
        rows.push((indent, node));
        let kids = arena_children_of(&self.arena, id);
        proof {
            if fuel == 0 && kids@.len() > 0 {
                assert(self.parents().contains_key(self.children()[id][0]));
            }
            assert(tree.children.take(0) =~= Seq::<TreeView>::empty());
            assert(outline_values(rows@) =~= given + seq![(indent as nat, tree.node)]
                + outline_of_all(tree.children.take(0), (indent + 1) as nat));
        }
        let mut i: usize = 0;
        while i < kids.len()
            invariant
                i <= kids@.len(),
                self.wf(),
                self.data().contains_key(id),
                indent == self.levels()[id],
                kids@ == self.children()[id],
                fuel == MAX_DEPTH - self.levels()[id],
                tree == subtree_of(self.data(), self.children(), id, fuel),
                tree.children.len() == kids@.len(),
                outline_values(rows@) == given + seq![(indent as nat, tree.node)] + outline_of_all(
                    tree.children.take(i as int),
                    (indent + 1) as nat,
                ),
            decreases kids@.len() - i,
        {
            let ghost before = outline_values(rows@);
            proof {
                assert(self.parents().contains_key(self.children()[id][i as int]));
            }
            self.rec_outline(kids[i], indent + 1, rows);
            proof {
                let next = tree.children.take(i + 1);
                assert(next.drop_last() =~= tree.children.take(i as int));
                assert(next.last() == tree.children[i as int]);
                assert(outline_values(rows@) =~= given + seq![(indent as nat, tree.node)]
                    + outline_of_all(next, (indent + 1) as nat));
            }
            i += 1;
        }
        proof {
            assert(tree.children.take(i as int) =~= tree.children);
            assert(outline_values(rows@) =~= given + tree.outline(indent as nat));
        }
    }

    /// The nodes of the tree in pre-order, each with its level below the
    /// root: what a listing of the tree shows, line by line.
    pub fn outline(&self) -> (rows: Vec<(usize, Node)>)
        requires
            self.wf(),
        ensures
            outline_values(rows@) == self@.outline(0),
    {
        let mut rows: Vec<(usize, Node)> = Vec::new();
        self.rec_outline(self.root, 0, &mut rows);
        proof {
            assert(outline_values(Seq::<(usize, Node)>::empty()) + self@.outline(0)
                =~= self@.outline(0));
        }
        rows
    }

    /// The node `id` with everything below it, as a plain value.
    fn scene_below(&self, id: NodeId) -> (scene: SceneNode)
        requires
            self.wf(),
            self.data().contains_key(id),
        ensures
            scene@ == subtree_of(
                self.data(),
                self.children(),
                id,
                (MAX_DEPTH - self.levels()[id]) as nat,
            ),
        decreases MAX_DEPTH - self.levels()[id],
    {
        let ghost fuel = (MAX_DEPTH - self.levels()[id]) as nat;
        let ghost tree = subtree_of(self.data(), self.children(), id, fuel);
        let kids = arena_children_of(&self.arena, id);
        proof {
            if fuel == 0 && kids@.len() > 0 {
                assert(self.parents().contains_key(self.children()[id][0]));
            }
        }
        let mut below: Vec<SceneNode> = Vec::new();
        let mut i: usize = 0;
        assert(crate::scene::views_of(below@) =~= tree.children.take(0));
        while i < kids.len()
            invariant
                i <= kids@.len(),
                self.wf(),
                self.data().contains_key(id),
                kids@ == self.children()[id],
                fuel == MAX_DEPTH - self.levels()[id],
                tree == subtree_of(self.data(), self.children(), id, fuel),
                tree.children.len() == kids@.len(),
                crate::scene::views_of(below@) == tree.children.take(i as int),
            decreases kids@.len() - i,
        {
            let ghost held = below@;
            proof {
                assert(self.parents().contains_key(self.children()[id][i as int]));
            }
            let kid = self.scene_below(kids[i]);
            below.push(kid);
            proof {
                assert(below@.drop_last() =~= held);
                assert(crate::scene::views_of(below@) =~= tree.children.take(i + 1));
            }
            i += 1;
        }
        assert(tree.children.take(i as int) =~= tree.children);
        let node = match arena_get(&self.arena, id) {
            Some(node) => node.duplicate(),
            None => unreached(),
        };
        let scene = SceneNode::new(node, below);
        proof {
            scene.lemma_view();
        }
        scene
    }

    /// The tree as a plain value: each node with its subtrees in order.
    pub fn to_scene(&self) -> (scene: SceneNode)
        requires
            self.wf(),
        ensures
            scene@ == self@,
    {
        self.scene_below(self.root)
    }

    /// Every handle of a chain of parent links that starts at a node of the
    /// tree is a node of the tree.
    proof fn lemma_chain_is_live(&self, chain: Seq<NodeId>, i: int)
        requires
            self.wf(),
            chain.len() >= 1,
            self.data().contains_key(chain[0]),
            0 <= i < chain.len(),
            forall|j: int|
                0 <= j < chain.len() - 1 ==> self.parents().contains_key(#[trigger] chain[j])
                    && self.parents()[chain[j]] == chain[j + 1],
        ensures
            self.data().contains_key(chain[i]),
        decreases i,
    {
        if i > 0 {
            self.lemma_chain_is_live(chain, i - 1);
            assert(self.parents().contains_key(chain[i - 1]));
        }
    }
}

/// The rows of an outline as values.
pub open spec fn outline_values(rows: Seq<(usize, Node)>) -> Seq<(nat, NodeView)> {
    Seq::new(rows.len(), |i: int| (rows[i].0 as nat, rows[i].1@))
}

/// The numbers that a sequence of identifiers holds.
pub open spec fn uuid_values(uuids: Seq<NodeUuid>) -> Seq<u32> {
    Seq::new(uuids.len(), |i: int| uuids[i].0)
}

} // verus!
