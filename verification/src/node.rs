//! The nodes of a puppet's scene graph: what every node carries, whatever
//! its type.

use vstd::prelude::*;

verus! {

/// The identifier by which the outside world refers to a node. It is unique
/// within one tree and does not change when the tree's storage does.
#[derive(Clone, Copy, Debug, PartialEq, Eq, Structural, PartialOrd, Ord, Hash)]
pub struct NodeUuid(pub u32);

/// A draw-order weight, held as a whole number of millionths so that sums
/// along a path are exact, or the marker of a weight that is not a number.
#[derive(Clone, Copy, Debug, PartialEq, Eq, Structural)]
pub enum ZSort {
    /// A weight in millionths of a unit.
    Value(i64),
    /// No number at all: such a weight cannot be ordered.
    NotANumber,
}

/// The sum of a path's weights so far and one more weight: a number as long
/// as every weight was one.
pub open spec fn add_weight(base: Option<int>, weight: ZSort) -> Option<int> {
    match (base, weight) {
        (Some(b), ZSort::Value(w)) => Some(b + w),
        _ => None,
    }
}

/// The concrete type of a node.
#[derive(Clone, Copy, Debug, PartialEq, Eq, Structural)]
pub enum NodeKind {
    /// A plain node that only groups its children.
    Node,
    /// A textured mesh.
    Part,
    /// A node that draws its subtree as one unit.
    Composite,
    /// A node driven by a physics simulation.
    SimplePhysics,
}

/// The node type that the type name `name` selects, if it selects one.
pub open spec fn kind_of_name(name: Seq<char>) -> Option<NodeKind> {
    if name == "Node"@ {
        Some(NodeKind::Node)
    } else if name == "Part"@ {
        Some(NodeKind::Part)
    } else if name == "Composite"@ {
        Some(NodeKind::Composite)
    } else if name == "SimplePhysics"@ {
        Some(NodeKind::SimplePhysics)
    } else {
        None
    }
}

/// The type name under which a payload records a node type.
pub open spec fn name_of_kind(kind: NodeKind) -> Seq<char> {
    match kind {
        NodeKind::Node => "Node"@,
        NodeKind::Part => "Part"@,
        NodeKind::Composite => "Composite"@,
        NodeKind::SimplePhysics => "SimplePhysics"@,
    }
}

/// Every node type is found again by its type name.
pub proof fn lemma_kind_of_name_of_kind(kind: NodeKind)
    ensures
        kind_of_name(name_of_kind(kind)) == Some(kind),
{
    reveal_strlit("Node");
    reveal_strlit("Part");
    reveal_strlit("Composite");
    reveal_strlit("SimplePhysics");
    assert("Node"@[0] != "Part"@[0]);
    assert("Node"@[0] != "Composite"@[0]);
    assert("Node"@[0] != "SimplePhysics"@[0]);
    assert("Part"@[0] != "Composite"@[0]);
    assert("Part"@[0] != "SimplePhysics"@[0]);
    assert("Composite"@[0] != "SimplePhysics"@[0]);
}

impl NodeKind {
    /// The node type that a type name selects.
    pub fn from_name(name: &String) -> (kind: Option<NodeKind>)
        ensures
            kind == kind_of_name(name@),
    {
        if *name == "Node".to_owned() {
            Some(NodeKind::Node)
        } else if *name == "Part".to_owned() {
            Some(NodeKind::Part)
        } else if *name == "Composite".to_owned() {
            Some(NodeKind::Composite)
        } else if *name == "SimplePhysics".to_owned() {
            Some(NodeKind::SimplePhysics)
        } else {
            None
        }
    }

    /// The type name of this node type.
    pub fn name(&self) -> (name: String)
        ensures
            name@ == name_of_kind(*self),
    {
        match self {
            NodeKind::Node => "Node".to_owned(),
            NodeKind::Part => "Part".to_owned(),
            NodeKind::Composite => "Composite".to_owned(),
            NodeKind::SimplePhysics => "SimplePhysics".to_owned(),
        }
    }
}

/// What every node carries: its identifier, its display name and its own
/// draw-order weight.
#[derive(Clone, Debug, PartialEq, Eq)]
pub struct NodeState {
    pub uuid: NodeUuid,
    pub name: String,
    pub zsort: ZSort,
}

/// A node of the scene graph: its type and its common state.
#[derive(Clone, Debug, PartialEq, Eq)]
pub struct Node {
    pub kind: NodeKind,
    pub state: NodeState,
}

/// A node as a value: type, identifier, name and weight.
pub struct NodeView {
    pub kind: NodeKind,
    pub uuid: u32,
    pub name: Seq<char>,
    pub zsort: ZSort,
}

impl View for Node {
    type V = NodeView;

    open spec fn view(&self) -> NodeView {
        NodeView {
            kind: self.kind,
            uuid: self.state.uuid.0,
            name: self.state.name@,
            zsort: self.state.zsort,
        }
    }
}

impl Node {
    /// A node of type `kind` with the given identifier, name and weight.
    pub fn new(kind: NodeKind, uuid: NodeUuid, name: String, zsort: ZSort) -> (node: Node)
        ensures
            node@ == (NodeView { kind, uuid: uuid.0, name: name@, zsort }),
    {
        Node { kind, state: NodeState { uuid, name, zsort } }
    }

    /// The state that this node shares with nodes of every type.
    pub fn get_node_state(&self) -> (state: &NodeState)
        ensures
            *state == self.state,
    {
        &self.state
    }

    /// The identifier of this node.
    pub fn uuid(&self) -> (uuid: NodeUuid)
        ensures
            uuid.0 == self@.uuid,
    {
        self.state.uuid
    }

    /// The type of this node.
    pub fn kind(&self) -> (kind: NodeKind)
        ensures
            kind == self@.kind,
    {
        self.kind
    }

    /// Whether the draw order treats this node's subtree as one unit.
    pub fn is_composite(&self) -> (composite: bool)
        ensures
            composite == (self@.kind == NodeKind::Composite),
    {
        match self.kind {
            NodeKind::Composite => true,
            _ => false,
        }
    }

    /// This node's own draw-order weight.
    pub fn zsort(&self) -> (zsort: ZSort)
        ensures
            zsort == self@.zsort,
    {
        self.state.zsort
    }

    /// Replaces this node's own draw-order weight and nothing else.
    pub fn set_zsort(&mut self, zsort: ZSort)
        ensures
            final(self)@ == (NodeView { zsort, ..old(self)@ }),
    {
        self.state.zsort = zsort;
    }

    /// A copy of this node.
    pub fn duplicate(&self) -> (node: Node)
        ensures
            node@ == self@,
    {
        Node {
            kind: self.kind,
            state: NodeState {
                uuid: self.state.uuid,
                name: self.state.name.clone(),
                zsort: self.state.zsort,
            },
        }
    }
}

} // verus!
