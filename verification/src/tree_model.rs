//! The tree that an arena holds, as mathematics: the subtree below a
//! handle, the handles and identifiers that it lists, and what does not
//! change when nodes are added elsewhere.

use vstd::prelude::*;
use indextree::NodeId;
use crate::node::Node;
use crate::scene::max_height;
use crate::scene::uuids_of_all;
use crate::scene::TreeView;

verus! {

/// The tree of values below `id`, read off the arena's contents. `fuel`
/// bounds the number of levels that are followed.
pub open spec fn subtree_of(
    data: Map<NodeId, Node>,
    children: Map<NodeId, Seq<NodeId>>,
    id: NodeId,
    fuel: nat,
) -> TreeView
    decreases fuel,
{
    TreeView {
        node: data[id]@,
        children: if fuel == 0 {
            Seq::empty()
        } else {
            Seq::new(
                children[id].len(),
                |i: int| subtree_of(data, children, children[id][i], (fuel - 1) as nat),
            )
        },
    }
}

/// The handles of the nodes below `id`, `id` first, in pre-order.
pub open spec fn handles_of(children: Map<NodeId, Seq<NodeId>>, id: NodeId, fuel: nat) -> Seq<
    NodeId,
>
    decreases fuel, 0nat,
{
    if fuel == 0 {
        seq![id]
    } else {
        seq![id] + handles_of_all(children, children[id], (fuel - 1) as nat)
    }
}

/// The handles of the nodes below each of `ids`, one subtree after the
/// other.
pub open spec fn handles_of_all(
    children: Map<NodeId, Seq<NodeId>>,
    ids: Seq<NodeId>,
    fuel: nat,
) -> Seq<NodeId>
    decreases fuel, ids.len() + 1,
{
    if ids.len() == 0 {
        Seq::empty()
    } else {
        handles_of_all(children, ids.drop_last(), fuel) + handles_of(children, ids.last(), fuel)
    }
}

/// The subtrees below each of `ids`.
pub open spec fn subtrees_of(
    data: Map<NodeId, Node>,
    children: Map<NodeId, Seq<NodeId>>,
    ids: Seq<NodeId>,
    fuel: nat,
) -> Seq<TreeView> {
    Seq::new(ids.len(), |i: int| subtree_of(data, children, ids[i], fuel))
}

/// The identifiers of the nodes stored under `handles`.
pub open spec fn uuids_at(data: Map<NodeId, Node>, handles: Seq<NodeId>) -> Seq<u32> {
    Seq::new(handles.len(), |i: int| data[handles[i]]@.uuid)
}

/// The node reached from `id` by `steps` parent links.
pub open spec fn climb(parents: Map<NodeId, NodeId>, id: NodeId, steps: nat) -> NodeId
    decreases steps,
{
    if steps == 0 {
        id
    } else {
        climb(parents, parents[id], (steps - 1) as nat)
    }
}

/// Climbing one step more ends at the parent of where the climb ended.
pub proof fn lemma_climb_step(parents: Map<NodeId, NodeId>, id: NodeId, steps: nat)
    ensures
        climb(parents, id, steps + 1) == parents[climb(parents, id, steps)],
    decreases steps,
{
    assert(climb(parents, id, steps + 1) == climb(parents, parents[id], steps));
    if steps > 0 {
        lemma_climb_step(parents, parents[id], (steps - 1) as nat);
        assert(climb(parents, id, steps) == climb(parents, parents[id], (steps - 1) as nat));
    }
}

/// The identifiers of a subtree in pre-order are those of its handles.
pub proof fn lemma_uuids_of_subtree(
    data: Map<NodeId, Node>,
    children: Map<NodeId, Seq<NodeId>>,
    id: NodeId,
    fuel: nat,
)
    ensures
        subtree_of(data, children, id, fuel).uuids() == uuids_at(
            data,
            handles_of(children, id, fuel),
        ),
        subtree_of(data, children, id, fuel).height() <= fuel,
    decreases fuel, 0nat,
{
    let tree = subtree_of(data, children, id, fuel);
    if fuel == 0 {
        assert(tree.children =~= Seq::<TreeView>::empty());
        assert(uuids_of_all(tree.children) =~= Seq::<u32>::empty());
        assert(tree.uuids() =~= uuids_at(data, handles_of(children, id, fuel)));
    } else {
        let below = subtrees_of(data, children, children[id], (fuel - 1) as nat);
        assert(tree.children =~= below);
        lemma_uuids_of_subtrees(data, children, children[id], (fuel - 1) as nat);
        assert(tree.uuids() =~= uuids_at(data, handles_of(children, id, fuel)));
    }
}

/// The identifiers of a row of subtrees are those of their handles.
pub proof fn lemma_uuids_of_subtrees(
    data: Map<NodeId, Node>,
    children: Map<NodeId, Seq<NodeId>>,
    ids: Seq<NodeId>,
    fuel: nat,
)
    ensures
        uuids_of_all(subtrees_of(data, children, ids, fuel)) == uuids_at(
            data,
            handles_of_all(children, ids, fuel),
        ),
        max_height(subtrees_of(data, children, ids, fuel)) <= fuel,
    decreases fuel, ids.len() + 1,
{
    let trees = subtrees_of(data, children, ids, fuel);
    if ids.len() == 0 {
        assert(uuids_of_all(trees) =~= uuids_at(data, handles_of_all(children, ids, fuel)));
    } else {
        assert(trees.drop_last() =~= subtrees_of(data, children, ids.drop_last(), fuel));
        assert(trees.last() == subtree_of(data, children, ids.last(), fuel));
        lemma_uuids_of_subtrees(data, children, ids.drop_last(), fuel);
        lemma_uuids_of_subtree(data, children, ids.last(), fuel);
        assert(uuids_of_all(trees) =~= uuids_at(data, handles_of_all(children, ids, fuel)));
    }
}

/// A handle is among those of a row of subtrees exactly when it is among
/// those of one of the subtrees.
pub proof fn lemma_handles_of_all_member(
    children: Map<NodeId, Seq<NodeId>>,
    ids: Seq<NodeId>,
    fuel: nat,
    handle: NodeId,
)
    ensures
        handles_of_all(children, ids, fuel).contains(handle) <==> exists|k: int|
            0 <= k < ids.len() && #[trigger] handles_of(children, ids[k], fuel).contains(handle),
    decreases ids.len(),
{
    let all = handles_of_all(children, ids, fuel);
    if ids.len() == 0 {
    } else {
        let before = handles_of_all(children, ids.drop_last(), fuel);
        let last = handles_of(children, ids.last(), fuel);
        lemma_handles_of_all_member(children, ids.drop_last(), fuel, handle);
        vstd::seq_lib::lemma_seq_concat_contains_all_elements(before, last, handle);
        if before.contains(handle) {
            let k = choose|k: int|
                0 <= k < ids.drop_last().len() && #[trigger] handles_of(
                    children,
                    ids.drop_last()[k],
                    fuel,
                ).contains(handle);
            assert(handles_of(children, ids[k], fuel).contains(handle));
        }
        if last.contains(handle) {
            assert(handles_of(children, ids[ids.len() - 1], fuel).contains(handle));
        }
        if exists|k: int|
            0 <= k < ids.len() && #[trigger] handles_of(children, ids[k], fuel).contains(handle) {
            let k = choose|k: int|
                0 <= k < ids.len() && #[trigger] handles_of(children, ids[k], fuel).contains(
                    handle,
                );
            if k < ids.len() - 1 {
                assert(handles_of(children, ids.drop_last()[k], fuel).contains(handle));
            }
        }
    }
}

/// What is below `id` is the same in two arenas that hold the same values
/// and children under every handle of `keep`, a set that holds `id` and,
/// with a handle, its children.
pub proof fn lemma_subtree_frame(
    data1: Map<NodeId, Node>,
    children1: Map<NodeId, Seq<NodeId>>,
    data2: Map<NodeId, Node>,
    children2: Map<NodeId, Seq<NodeId>>,
    keep: Set<NodeId>,
    id: NodeId,
    fuel: nat,
)
    requires
        keep.contains(id),
        forall|x: NodeId| #[trigger]
            keep.contains(x) ==> data2[x] == data1[x] && children2[x] == children1[x],
        forall|x: NodeId, i: int|
            keep.contains(x) && 0 <= i < children1[x].len() ==> keep.contains(
                #[trigger] children1[x][i],
            ),
    ensures
        subtree_of(data1, children1, id, fuel) == subtree_of(data2, children2, id, fuel),
    decreases fuel,
{
    if fuel > 0 {
        let below1 = subtree_of(data1, children1, id, fuel).children;
        let below2 = subtree_of(data2, children2, id, fuel).children;
        assert(below1.len() == below2.len());
        assert forall|i: int| 0 <= i < below1.len() implies below1[i] == below2[i] by {
            assert(keep.contains(children1[id][i]));
            lemma_subtree_frame(
                data1,
                children1,
                data2,
                children2,
                keep,
                children1[id][i],
                (fuel - 1) as nat,
            );
        }
        assert(below1 =~= below2);
    }
}

/// The identifiers of the first `k` trees of a sequence open the
/// identifiers of the whole sequence.
pub proof fn lemma_uuids_of_all_prefix(trees: Seq<TreeView>, k: int)
    requires
        0 <= k <= trees.len(),
    ensures
        uuids_of_all(trees.take(k)).len() <= uuids_of_all(trees).len(),
        uuids_of_all(trees.take(k)) == uuids_of_all(trees).take(
            uuids_of_all(trees.take(k)).len() as int,
        ),
    decreases trees.len(),
{
    if k == trees.len() {
        assert(trees.take(k) =~= trees);
        assert(uuids_of_all(trees).take(uuids_of_all(trees).len() as int) =~= uuids_of_all(trees));
    } else {
        let shorter = trees.drop_last();
        lemma_uuids_of_all_prefix(shorter, k);
        assert(shorter.take(k) =~= trees.take(k));
        let part = uuids_of_all(trees.take(k));
        assert(part =~= uuids_of_all(trees).take(part.len() as int));
    }
}

/// A sequence that opens with a repetition holds one.
pub proof fn lemma_duplicate_in_prefix(whole: Seq<u32>, n: int)
    requires
        0 <= n <= whole.len(),
        !whole.take(n).no_duplicates(),
    ensures
        !whole.no_duplicates(),
{
    let part = whole.take(n);
    let (i, j) = choose|i: int, j: int|
        0 <= i < part.len() && 0 <= j < part.len() && i != j && part[i] == part[j];
    assert(whole[i] == whole[j]);
}

} // verus!
