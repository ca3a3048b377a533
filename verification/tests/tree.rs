use inox2d::error::PuppetError;
use inox2d::node::{Node, NodeKind, NodeUuid, ZSort};
use inox2d::node_tree::NodeTree;
use inox2d::scene::{SceneNode, MAX_DEPTH};

fn node(kind: NodeKind, uuid: u32, name: &str, units: i64) -> Node {
    Node::new(kind, NodeUuid(uuid), name.to_string(), ZSort::Value(units * 1_000_000))
}

fn leaf(kind: NodeKind, uuid: u32, name: &str, units: i64) -> SceneNode {
    SceneNode::new(node(kind, uuid, name, units), Vec::new())
}

fn branch(kind: NodeKind, uuid: u32, name: &str, units: i64, children: Vec<SceneNode>) -> SceneNode {
    SceneNode::new(node(kind, uuid, name, units), children)
}

fn chain() -> NodeTree {
    let c = leaf(NodeKind::Part, 4, "C", 0);
    let b = branch(NodeKind::Node, 3, "B", 0, vec![c]);
    let a = branch(NodeKind::Node, 2, "A", 0, vec![b]);
    let root = branch(NodeKind::Node, 1, "root", 0, vec![a]);
    NodeTree::build(&root).unwrap()
}

#[test]
fn zsorted_skips_what_is_below_a_composite() {
    let d = leaf(NodeKind::Part, 3, "D", 100);
    let c = branch(NodeKind::Composite, 2, "C", 5, vec![d]);
    let r = branch(NodeKind::Node, 1, "R", 0, vec![c]);
    let tree = NodeTree::build(&r).unwrap();
    let order = tree.zsorted().unwrap();
    assert!(order.contains(&NodeUuid(1)));
    assert!(order.contains(&NodeUuid(2)));
    assert!(!order.contains(&NodeUuid(3)));
    assert_eq!(order, vec![NodeUuid(2), NodeUuid(1)]);
}

#[test]
fn zsorted_adds_weights_along_the_path() {
    let b = leaf(NodeKind::Part, 3, "B", 2);
    let a = branch(NodeKind::Node, 2, "A", 3, vec![b]);
    let r = branch(NodeKind::Node, 1, "R", 0, vec![a]);
    let tree = NodeTree::build(&r).unwrap();
    assert_eq!(tree.zsorted().unwrap(), vec![NodeUuid(3), NodeUuid(2), NodeUuid(1)]);
}

#[test]
fn zsorted_orders_by_the_sum_not_by_the_own_weight() {
    // x: 0 + 10 - 9 = 1, y: 0 + 2 = 2, p: 10.
    let x = leaf(NodeKind::Part, 3, "x", -9);
    let p = branch(NodeKind::Node, 2, "p", 10, vec![x]);
    let y = leaf(NodeKind::Part, 4, "y", 2);
    let r = branch(NodeKind::Node, 1, "r", 0, vec![p, y]);
    let tree = NodeTree::build(&r).unwrap();
    assert_eq!(
        tree.zsorted().unwrap(),
        vec![NodeUuid(2), NodeUuid(4), NodeUuid(3), NodeUuid(1)]
    );
}

#[test]
fn zsorted_keeps_equal_weights_in_visiting_order() {
    let a1 = leaf(NodeKind::Part, 11, "a1", 0);
    let a = branch(NodeKind::Node, 10, "a", 1, vec![a1]);
    let b = leaf(NodeKind::Part, 20, "b", 1);
    let c = leaf(NodeKind::Part, 30, "c", 0);
    let r = branch(NodeKind::Node, 1, "r", 0, vec![a, b, c]);
    let tree = NodeTree::build(&r).unwrap();
    // weights: r 0, a 1, a1 1, b 1, c 0; the walk meets r, a, a1, b, c.
    assert_eq!(
        tree.zsorted().unwrap(),
        vec![NodeUuid(10), NodeUuid(11), NodeUuid(20), NodeUuid(1), NodeUuid(30)]
    );
}

#[test]
fn zsorted_of_a_single_node_is_that_node() {
    let tree = NodeTree::build(&leaf(NodeKind::Node, 7, "only", 3)).unwrap();
    assert_eq!(tree.zsorted().unwrap(), vec![NodeUuid(7)]);
}

#[test]
fn zsorted_refuses_a_weight_that_is_not_a_number() {
    let bad = SceneNode::new(
        Node::new(NodeKind::Part, NodeUuid(2), "bad".to_string(), ZSort::NotANumber),
        Vec::new(),
    );
    let r = branch(NodeKind::Node, 1, "r", 0, vec![bad]);
    let tree = NodeTree::build(&r).unwrap();
    assert_eq!(tree.zsorted(), Err(PuppetError::IncomparableZOrder));
}

#[test]
fn zsorted_compares_nothing_for_a_single_node() {
    let only = SceneNode::new(
        Node::new(NodeKind::Part, NodeUuid(2), "only".to_string(), ZSort::NotANumber),
        Vec::new(),
    );
    let tree = NodeTree::build(&only).unwrap();
    assert_eq!(tree.zsorted(), Ok(vec![NodeUuid(2)]));
}

#[test]
fn zsorted_ignores_a_bad_weight_below_a_composite() {
    let hidden = SceneNode::new(
        Node::new(NodeKind::Part, NodeUuid(3), "hidden".to_string(), ZSort::NotANumber),
        Vec::new(),
    );
    let c = branch(NodeKind::Composite, 2, "c", 1, vec![hidden]);
    let r = branch(NodeKind::Node, 1, "r", 0, vec![c]);
    let tree = NodeTree::build(&r).unwrap();
    assert_eq!(tree.zsorted(), Ok(vec![NodeUuid(2), NodeUuid(1)]));
}

#[test]
fn zsorted_sums_the_largest_weights_without_overflow() {
    let low = SceneNode::new(
        Node::new(NodeKind::Part, NodeUuid(3), "low".to_string(), ZSort::Value(i64::MIN)),
        Vec::new(),
    );
    let high = SceneNode::new(
        Node::new(NodeKind::Part, NodeUuid(2), "high".to_string(), ZSort::Value(i64::MAX)),
        vec![SceneNode::new(
            Node::new(NodeKind::Part, NodeUuid(4), "higher".to_string(), ZSort::Value(i64::MAX)),
            Vec::new(),
        )],
    );
    let r = SceneNode::new(
        Node::new(NodeKind::Node, NodeUuid(1), "r".to_string(), ZSort::Value(0)),
        vec![low, high],
    );
    let tree = NodeTree::build(&r).unwrap();
    assert_eq!(
        tree.zsorted().unwrap(),
        vec![NodeUuid(4), NodeUuid(2), NodeUuid(1), NodeUuid(3)]
    );
}

#[test]
fn ancestors_run_from_the_parent_to_the_root() {
    let tree = chain();
    let expected = vec![NodeUuid(3), NodeUuid(2), NodeUuid(1)];
    assert_eq!(tree.ancestors(NodeUuid(4)), expected);
    // A second call walks the same path again.
    assert_eq!(tree.ancestors(NodeUuid(4)), expected);
    assert_eq!(tree.ancestors(NodeUuid(2)), vec![NodeUuid(1)]);
}

#[test]
fn ancestors_of_the_root_and_of_a_stranger_are_empty() {
    let tree = chain();
    assert_eq!(tree.ancestors(NodeUuid(1)), Vec::<NodeUuid>::new());
    assert_eq!(tree.ancestors(NodeUuid(99)), Vec::<NodeUuid>::new());
}

#[test]
fn get_node_finds_nodes_by_identifier() {
    let tree = chain();
    let b = tree.get_node(NodeUuid(3)).unwrap();
    assert_eq!(b.get_node_state().name, "B");
    assert_eq!(b.uuid(), NodeUuid(3));
    assert_eq!(b.kind(), NodeKind::Node);
    assert_eq!(tree.get_node(NodeUuid(4)).unwrap().kind(), NodeKind::Part);
    assert!(tree.get_node(NodeUuid(5)).is_none());
}

#[test]
fn get_parent_is_absent_for_the_root_and_for_a_stranger() {
    let tree = chain();
    assert_eq!(tree.get_parent(NodeUuid(4)).unwrap().uuid(), NodeUuid(3));
    assert_eq!(tree.get_parent(NodeUuid(2)).unwrap().uuid(), NodeUuid(1));
    assert!(tree.get_parent(NodeUuid(1)).is_none());
    assert!(tree.get_parent(NodeUuid(42)).is_none());
}

#[test]
fn get_children_uuids_keeps_declaration_order() {
    let kids = vec![
        leaf(NodeKind::Part, 30, "third", 0),
        leaf(NodeKind::Part, 10, "first", 0),
        leaf(NodeKind::Part, 20, "second", 0),
    ];
    let tree = NodeTree::build(&branch(NodeKind::Node, 1, "r", 0, kids)).unwrap();
    assert_eq!(
        tree.get_children_uuids(NodeUuid(1)),
        Some(vec![NodeUuid(30), NodeUuid(10), NodeUuid(20)])
    );
    assert_eq!(tree.get_children_uuids(NodeUuid(10)), Some(Vec::new()));
    assert_eq!(tree.get_children_uuids(NodeUuid(2)), None);
}

#[test]
fn get_node_mut_changes_a_weight_in_place() {
    let b = leaf(NodeKind::Part, 3, "B", 1);
    let a = leaf(NodeKind::Part, 2, "A", 2);
    let mut tree = NodeTree::build(&branch(NodeKind::Node, 1, "R", 0, vec![a, b])).unwrap();
    assert_eq!(tree.zsorted().unwrap(), vec![NodeUuid(2), NodeUuid(3), NodeUuid(1)]);
    tree.get_node_mut(NodeUuid(3)).unwrap().set_zsort(ZSort::Value(5_000_000));
    assert_eq!(tree.get_node(NodeUuid(3)).unwrap().zsort(), ZSort::Value(5_000_000));
    assert_eq!(tree.zsorted().unwrap(), vec![NodeUuid(3), NodeUuid(2), NodeUuid(1)]);
    assert!(tree.get_node_mut(NodeUuid(9)).is_none());
}

#[test]
fn build_refuses_a_repeated_identifier() {
    let a = leaf(NodeKind::Part, 2, "a", 0);
    let again = leaf(NodeKind::Part, 2, "again", 0);
    let r = branch(NodeKind::Node, 1, "r", 0, vec![a, again]);
    assert_eq!(NodeTree::build(&r).err(), Some(PuppetError::DuplicateExternalId));
    let same_as_root = leaf(NodeKind::Part, 1, "root again", 0);
    let deep = branch(NodeKind::Node, 5, "deep", 0, vec![same_as_root]);
    let r = branch(NodeKind::Node, 1, "r", 0, vec![deep]);
    assert_eq!(NodeTree::build(&r).err(), Some(PuppetError::DuplicateExternalId));
}

#[test]
fn build_gives_pairwise_distinct_identifiers() {
    let tree = chain();
    let scene = tree.to_scene();
    let mut seen = Vec::new();
    let mut stack = vec![&scene];
    while let Some(s) = stack.pop() {
        assert!(!seen.contains(&s.node.uuid()));
        seen.push(s.node.uuid());
        stack.extend(s.children.iter());
    }
    assert_eq!(seen.len(), 4);
}

fn tower(levels: usize) -> SceneNode {
    let mut scene = leaf(NodeKind::Part, 0, "bottom", 0);
    for i in 0..levels {
        scene = branch(NodeKind::Node, (i + 1) as u32, "level", 0, vec![scene]);
    }
    scene
}

#[test]
fn build_accepts_the_deepest_scene_and_refuses_one_deeper() {
    let deepest = tower(MAX_DEPTH);
    assert!(deepest.fits_depth(MAX_DEPTH));
    let tree = NodeTree::build(&deepest).unwrap();
    assert_eq!(tree.ancestors(NodeUuid(0)).len(), MAX_DEPTH);
    assert_eq!(tree.zsorted().unwrap().len(), MAX_DEPTH + 1);
    let deeper = tower(MAX_DEPTH + 1);
    assert!(!deeper.fits_depth(MAX_DEPTH));
    assert_eq!(NodeTree::build(&deeper).err(), Some(PuppetError::InvalidSceneStructure));
}

#[test]
fn to_scene_gives_back_what_was_built() {
    let d = leaf(NodeKind::SimplePhysics, 3, "D", 100);
    let c = branch(NodeKind::Composite, 2, "C", 5, vec![d]);
    let e = leaf(NodeKind::Part, 4, "E", -1);
    let r = branch(NodeKind::Node, 1, "R", 0, vec![c, e]);
    let tree = NodeTree::build(&r).unwrap();
    assert_eq!(tree.to_scene(), r);
}

#[test]
fn node_kinds_are_found_by_their_names() {
    for kind in [NodeKind::Node, NodeKind::Part, NodeKind::Composite, NodeKind::SimplePhysics] {
        assert_eq!(NodeKind::from_name(&kind.name()), Some(kind));
    }
    assert_eq!(NodeKind::Composite.name(), "Composite");
    assert_eq!(NodeKind::from_name(&"Camera".to_string()), None);
    assert_eq!(NodeKind::from_name(&"node".to_string()), None);
}

#[test]
fn outline_lists_the_nodes_with_their_levels() {
    let d = leaf(NodeKind::Part, 3, "D", 100);
    let c = branch(NodeKind::Composite, 2, "C", 5, vec![d]);
    let e = leaf(NodeKind::Part, 4, "E", -1);
    let r = branch(NodeKind::Node, 1, "R", 0, vec![c, e]);
    let tree = NodeTree::build(&r).unwrap();
    let rows: Vec<(usize, u32, String)> = tree
        .outline()
        .into_iter()
        .map(|(level, node)| (level, node.uuid().0, node.get_node_state().name.clone()))
        .collect();
    assert_eq!(
        rows,
        vec![
            (0, 1, "R".to_string()),
            (1, 2, "C".to_string()),
            (2, 3, "D".to_string()),
            (1, 4, "E".to_string()),
        ]
    );
}

#[test]
fn root_is_the_node_without_parent() {
    let tree = chain();
    assert_eq!(tree.root(), NodeUuid(1));
    assert!(tree.get_parent(tree.root()).is_none());
    let single = NodeTree::new(node(NodeKind::Part, 9, "alone", 1));
    assert_eq!(single.root(), NodeUuid(9));
    assert_eq!(single.get_children_uuids(NodeUuid(9)), Some(Vec::new()));
    assert_eq!(single.zsorted(), Ok(vec![NodeUuid(9)]));
}

#[test]
fn build_finds_a_repeated_identifier_wherever_it_stands() {
    let duplicate = Some(PuppetError::DuplicateExternalId);
    // Siblings.
    let r = branch(
        NodeKind::Node,
        1,
        "r",
        0,
        vec![leaf(NodeKind::Part, 2, "a", 0), leaf(NodeKind::Part, 2, "b", 0)],
    );
    assert_eq!(NodeTree::build(&r).err(), duplicate);
    // Ancestor and descendant.
    let deep = branch(NodeKind::Node, 3, "m", 0, vec![leaf(NodeKind::Part, 1, "again", 0)]);
    let r = branch(NodeKind::Node, 1, "r", 0, vec![branch(NodeKind::Node, 2, "a", 0, vec![deep])]);
    assert_eq!(NodeTree::build(&r).err(), duplicate);
    // Different subtrees.
    let left = branch(NodeKind::Node, 2, "l", 0, vec![leaf(NodeKind::Part, 9, "x", 0)]);
    let right = branch(NodeKind::Node, 3, "r", 0, vec![leaf(NodeKind::Part, 9, "y", 0)]);
    let r = branch(NodeKind::Node, 1, "r", 0, vec![left, right]);
    assert_eq!(NodeTree::build(&r).err(), duplicate);
    // Below a composite, which the draw order never enters.
    let c = branch(NodeKind::Composite, 2, "c", 0, vec![leaf(NodeKind::Part, 1, "x", 0)]);
    let r = branch(NodeKind::Node, 1, "r", 0, vec![c]);
    assert_eq!(NodeTree::build(&r).err(), duplicate);
}

#[test]
fn build_judges_a_repeated_identifier_before_the_depth() {
    // A tower far deeper than the limit, with the bottom's identifier
    // used again at the top.
    let mut scene = leaf(NodeKind::Part, 7, "bottom", 0);
    for i in 0..(3 * MAX_DEPTH) {
        scene = branch(NodeKind::Node, 1000 + i as u32, "level", 0, vec![scene]);
    }
    let top = branch(NodeKind::Node, 7, "top", 0, vec![scene]);
    assert!(!top.has_distinct_uuids());
    assert_eq!(NodeTree::build(&top).err(), Some(PuppetError::DuplicateExternalId));
    assert!(tower(3 * MAX_DEPTH).has_distinct_uuids());
    assert_eq!(
        NodeTree::build(&tower(3 * MAX_DEPTH)).err(),
        Some(PuppetError::InvalidSceneStructure)
    );
}
