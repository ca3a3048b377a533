//! Whether a scene uses an identifier twice, found by a walk that keeps
//! its own list of what is still to be visited, so that a scene of any
//! depth can be judged.

use vstd::prelude::*;
use std::collections::BTreeSet;
use crate::scene::tree_of;
use crate::scene::uuids_of_all;
use crate::scene::SceneNode;
use crate::scene::TreeView;

verus! {

broadcast use {vstd::std_specs::btree::group_btree_axioms, vstd::laws_cmp::group_laws_cmp};

/// The trees of the scenes that are still to be visited.
pub open spec fn pending_trees(pending: Seq<&SceneNode>) -> Seq<TreeView> {
    Seq::new(pending.len(), |i: int| tree_of(*pending[i]))
}

/// The identifiers of two rows of trees are those of the first row, then
/// those of the second.
pub proof fn lemma_uuids_of_all_concat(first: Seq<TreeView>, second: Seq<TreeView>)
    ensures
        uuids_of_all(first + second) == uuids_of_all(first) + uuids_of_all(second),
    decreases second.len(),
{
    if second.len() == 0 {
        assert(first + second =~= first);
        assert(uuids_of_all(first) + uuids_of_all(second) =~= uuids_of_all(first));
    } else {
        let all = first + second;
        assert(all.drop_last() =~= first + second.drop_last());
        assert(all.last() == second.last());
        lemma_uuids_of_all_concat(first, second.drop_last());
        assert(uuids_of_all(all) =~= uuids_of_all(first) + uuids_of_all(second));
    }
}

/// An identifier that stands in two sequences stands twice in every
/// sequence that holds what the two hold together.
proof fn lemma_twice(whole: Seq<u32>, visited: Seq<u32>, pending: Seq<u32>, uuid: u32)
    requires
        whole.to_multiset() == visited.to_multiset().add(pending.to_multiset()),
        visited.contains(uuid),
        pending.contains(uuid),
    ensures
        !whole.no_duplicates(),
{
    broadcast use vstd::seq_lib::to_multiset_contains;

    if whole.no_duplicates() {
        whole.lemma_multiset_has_no_duplicates();
        assert(visited.to_multiset().count(uuid) > 0);
        assert(pending.to_multiset().count(uuid) > 0);
        assert(whole.to_multiset().count(uuid) >= 2);
        assert(whole.to_multiset().contains(uuid));
    }
}

/// A sequence that holds what a sequence without repetition holds has
/// none either.
proof fn lemma_same_content(whole: Seq<u32>, visited: Seq<u32>)
    requires
        whole.to_multiset() == visited.to_multiset(),
        visited.no_duplicates(),
    ensures
        whole.no_duplicates(),
{
    visited.lemma_multiset_has_no_duplicates();
    whole.lemma_multiset_has_no_duplicates_conv();
}

impl SceneNode {
    /// Whether the nodes of this scene carry pairwise distinct
    /// identifiers, wherever in the scene they stand.
    pub fn has_distinct_uuids(&self) -> (distinct: bool)
        ensures
            distinct == self@.uuids().no_duplicates(),
    {
        let ghost whole = self@.uuids();
        let mut seen: BTreeSet<u32> = BTreeSet::new();
        let ghost mut visited: Seq<u32> = Seq::empty();
        let mut pending: Vec<&SceneNode> = Vec::new();
        pending.push(self);
        proof {
            let trees = pending_trees(pending@);
            assert(trees.drop_last() =~= Seq::<TreeView>::empty());
            assert(uuids_of_all(trees.drop_last()) =~= Seq::<u32>::empty());
            assert(trees.last() == self@);
            assert(uuids_of_all(trees) =~= whole);
            visited.to_multiset_ensures();
            assert(visited.to_multiset() =~= vstd::multiset::Multiset::empty());
            assert(visited.to_multiset().add(whole.to_multiset()) =~= whole.to_multiset());
        }
        while pending.len() > 0
            invariant
                whole == self@.uuids(),
                visited.no_duplicates(),
                forall|u: u32| seen@.contains(u) <==> visited.contains(u),
                whole.to_multiset() == visited.to_multiset().add(
                    uuids_of_all(pending_trees(pending@)).to_multiset(),
                ),
            decreases uuids_of_all(pending_trees(pending@)).len(),
        {
            let ghost before = pending_trees(pending@);
            let scene = match pending.pop() {
                Some(scene) => scene,
                None => unreached(),
            };
            let ghost rest = pending_trees(pending@);
            let ghost tree = scene@;
            let uuid = scene.node.uuid().0;
            proof {
                scene.lemma_view();
                assert(before.drop_last() =~= rest);
                assert(before.last() == tree);
                assert(uuids_of_all(before) == uuids_of_all(rest) + tree.uuids());
                assert(tree.uuids()[0] == uuid);
                assert(uuids_of_all(before)[uuids_of_all(rest).len() as int] == uuid);
            }
            if !seen.insert(uuid) {
                proof {
                    lemma_twice(whole, visited, uuids_of_all(before), uuid);
                }
                return false;
            }
            proof {
                assert(!visited.contains(uuid));
                assert(visited.push(uuid).no_duplicates()) by {
                    assert forall|a: int, b: int|
                        0 <= a < visited.len() + 1 && 0 <= b < visited.len() + 1 && a
                            != b implies visited.push(uuid)[a] != visited.push(uuid)[b] by {
                        if a < visited.len() && b < visited.len() {
                        } else if a < visited.len() {
                            assert(visited[a] != uuid);
                        } else {
                            assert(visited[b] != uuid);
                        }
                    }
                }
                let below = uuids_of_all(tree.children);
                let others = uuids_of_all(rest);
                vstd::seq_lib::lemma_multiset_commutative(others, tree.uuids());
                vstd::seq_lib::lemma_multiset_commutative(seq![uuid], below);
                vstd::seq_lib::lemma_multiset_commutative(others, below);
                vstd::seq_lib::to_multiset_build(visited, uuid);
                assert(seq![uuid].to_multiset() =~= Seq::<u32>::empty().to_multiset().insert(
                    uuid,
                )) by {
                    vstd::seq_lib::to_multiset_build(Seq::<u32>::empty(), uuid);
                    assert(Seq::<u32>::empty().push(uuid) =~= seq![uuid]);
                }
                assert(Seq::<u32>::empty().to_multiset() =~= vstd::multiset::Multiset::empty())
                    by {
                    Seq::<u32>::empty().to_multiset_ensures();
                }
                assert(whole.to_multiset() =~= visited.push(uuid).to_multiset().add(
                    (others + below).to_multiset(),
                ));
                assert forall|u: u32| seen@.contains(u) <==> visited.push(uuid).contains(u) by {
                    vstd::seq_lib::lemma_seq_contains_after_push(visited, uuid, u);
                }
                visited = visited.push(uuid);
                assert(rest + tree.children.take(0) =~= rest);
                lemma_uuids_of_all_concat(rest, tree.children);
            }
            let mut i: usize = 0;
            while i < scene.children.len()
                invariant
                    i <= scene.children@.len(),
                    tree == scene@,
                    tree.children.len() == scene.children@.len(),
                    forall|j: int|
                        0 <= j < scene.children@.len() ==> #[trigger] tree.children[j]
                            == scene.children@[j]@,
                    pending_trees(pending@) == rest + tree.children.take(i as int),
                decreases scene.children@.len() - i,
            {
                let ghost held = pending@;
                pending.push(&scene.children[i]);
                proof {
                    let now = pending_trees(pending@);
                    let wanted = rest + tree.children.take(i + 1);
                    assert(pending@.len() == held.len() + 1);
                    assert(pending_trees(held).len() == held.len());
                    assert(pending_trees(held).len() == rest.len() + i);
                    assert(now.len() == wanted.len());
                    assert forall|j: int| 0 <= j < now.len() implies now[j] == wanted[j] by {
                        if j < held.len() {
                            assert(pending@[j] == held[j]);
                            assert(now[j] == pending_trees(held)[j]);
                        } else {
                            assert(*pending@[j] == scene.children@[i as int]);
                            assert(wanted[j] == tree.children[i as int]);
                        }
                    }
                    assert(now =~= wanted);
                }
                i += 1;
            }
            proof {
                assert(tree.children.take(i as int) =~= tree.children);
                assert(uuids_of_all(before).len() == uuids_of_all(rest).len() + 1 + uuids_of_all(
                    tree.children,
                ).len());
            }
        }
        proof {
            assert(pending_trees(pending@) =~= Seq::<TreeView>::empty());
            assert(uuids_of_all(pending_trees(pending@)) =~= Seq::<u32>::empty());
            Seq::<u32>::empty().to_multiset_ensures();
            assert(whole.to_multiset() =~= visited.to_multiset());
            lemma_same_content(whole, visited);
        }
        true
    }
}

} // verus!
