//! The arena that stores the nodes of a tree, and the contracts under which
//! the rest of the library calls it. Nothing in this file is proved: each
//! contract restates what the `indextree` crate does.

use vstd::prelude::*;
use indextree::Arena;
use indextree::NodeId;
use crate::node::Node;

verus! {

/// `indextree::Arena`, whose inside the proofs do not see.
#[verifier::external_type_specification]
#[verifier::external_body]
#[verifier::reject_recursive_types(T)]
pub struct ExArena<T>(Arena<T>);

/// `indextree::NodeId`, the handle of a node in an arena. Two handles are
/// equal when they name the same slot at the same use of it.
#[verifier::external_type_specification]
#[verifier::external_body]
pub struct ExNodeId(NodeId);

/// The live nodes of an arena: the value stored under each handle.
pub uninterp spec fn arena_data(arena: Arena<Node>) -> Map<NodeId, Node>;

/// The parent of each live node that has one.
pub uninterp spec fn arena_parent(arena: Arena<Node>) -> Map<NodeId, NodeId>;

/// The children of each live node, first to last.
pub uninterp spec fn arena_children(arena: Arena<Node>) -> Map<NodeId, Seq<NodeId>>;

/// `Arena::new`: an arena that holds no node.
#[verifier::external_body]
pub(crate) fn arena_new() -> (arena: Arena<Node>)
    ensures
        arena_data(arena) == (Map::<NodeId, Node>::empty()),
        arena_parent(arena) == (Map::<NodeId, NodeId>::empty()),
        arena_children(arena) == (Map::<NodeId, Seq<NodeId>>::empty()),
{
    Arena::new()
}

/// `Arena::new_node`: stores `data` under a handle that no live node has.
/// The new node has no parent and no children; the others are untouched.
#[verifier::external_body]
pub(crate) fn arena_new_node(arena: &mut Arena<Node>, data: Node) -> (id: NodeId)
    ensures
        !arena_data(*old(arena)).contains_key(id),
        arena_data(*final(arena)) == arena_data(*old(arena)).insert(id, data),
        arena_parent(*final(arena)) == arena_parent(*old(arena)),
        arena_children(*final(arena)) == arena_children(*old(arena)).insert(id, Seq::empty()),
{
    arena.new_node(data)
}

/// `NodeId::append`: makes `child` the last child of `parent`. The call
/// panics when the two are the same node, when either is not live, or when
/// `child` is an ancestor of `parent`, which a node without children never
/// is. `child` is asked to have no parent, so that nothing is unlinked.
#[verifier::external_body]
pub(crate) fn arena_append(arena: &mut Arena<Node>, parent: NodeId, child: NodeId)
    requires
        arena_data(*old(arena)).contains_key(parent),
        arena_data(*old(arena)).contains_key(child),
        parent != child,
        arena_children(*old(arena))[child].len() == 0,
        !arena_parent(*old(arena)).contains_key(child),
    ensures
        arena_data(*final(arena)) == arena_data(*old(arena)),
        arena_parent(*final(arena)) == arena_parent(*old(arena)).insert(child, parent),
        arena_children(*final(arena)) == arena_children(*old(arena)).insert(
            parent,
            arena_children(*old(arena))[parent].push(child),
        ),
{
    parent.append(child, arena)
}

/// `Arena::get_data`: the value stored under `id`, if `id` is live.
#[verifier::external_body]
pub(crate) fn arena_get(arena: &Arena<Node>, id: NodeId) -> (res: Option<&Node>)
    ensures
        res is Some == arena_data(*arena).contains_key(id),
        res is Some ==> *res->Some_0 == arena_data(*arena)[id],
{
    arena.get_data(id)
}

/// `Arena::get_data_mut`: the value stored under `id`, if `id` is live, to
/// be changed in place. Links and other values stay as they are.
#[verifier::external_body]
pub(crate) fn arena_get_mut(arena: &mut Arena<Node>, id: NodeId) -> (res: Option<&mut Node>)
    ensures
        res is Some == arena_data(*old(arena)).contains_key(id),
        res is Some ==> *res->Some_0 == arena_data(*old(arena))[id],
        res is Some ==> arena_data(*final(arena)) == arena_data(*old(arena)).insert(
            id,
            *final(res->Some_0),
        ),
        res is None ==> arena_data(*final(arena)) == arena_data(*old(arena)),
        arena_parent(*final(arena)) == arena_parent(*old(arena)),
        arena_children(*final(arena)) == arena_children(*old(arena)),
{
    arena.get_data_mut(id)
}

/// `NodeId::parent`: the parent of a live node, if it has one. The call
/// indexes the arena, so `id` must be live.
#[verifier::external_body]
pub(crate) fn arena_parent_of(arena: &Arena<Node>, id: NodeId) -> (res: Option<NodeId>)
    requires
        arena_data(*arena).contains_key(id),
    ensures
        res is Some == arena_parent(*arena).contains_key(id),
        res is Some ==> res->Some_0 == arena_parent(*arena)[id],
{
    id.parent(arena)
}

/// `NodeId::children`: the children of a live node, first to last.
#[verifier::external_body]
pub(crate) fn arena_children_of(arena: &Arena<Node>, id: NodeId) -> (res: Vec<NodeId>)
    requires
        arena_data(*arena).contains_key(id),
    ensures
        res@ == arena_children(*arena)[id],
{
    id.children(arena).collect()
}

/// `NodeId::ancestors`: a live node, then its parent, and so on up to the
/// node that has no parent.
#[verifier::external_body]
pub(crate) fn arena_ancestors(arena: &Arena<Node>, id: NodeId) -> (res: Vec<NodeId>)
    requires
        arena_data(*arena).contains_key(id),
    ensures
        res@.len() >= 1,
        res@[0] == id,
        !arena_parent(*arena).contains_key(res@.last()),
        forall|i: int|
            0 <= i < res@.len() - 1 ==> arena_parent(*arena).contains_key(#[trigger] res@[i])
                && arena_parent(*arena)[res@[i]] == res@[i + 1],
{
    id.ancestors(arena).collect()
}

} // verus!
