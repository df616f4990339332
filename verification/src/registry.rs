//! The registry is the "global" store of logic and state.
use vstd::prelude::*;
use crate::stage::{Stage, StageShape, same_shape, shape_eq};
use crate::node::Node;
use crate::error::{NodesNotFoundError, NodeTypeMismatchError, RegistryError};

verus! {

/// Used to access nodes within the registry: the node's index and the
/// shape of its stage.
#[derive(Debug, Clone, Copy)]
pub struct NodeId {
    pub id: usize,
    pub shape: &'static StageShape,
}

/// The identity of a node: its index in the registry and its stage's shape.
#[derive(Debug, Clone, Copy, PartialEq, Eq, Hash)]
pub struct NodeReflection {
    pub id: usize,
    pub shape: &'static StageShape,
}

/// Two reflections name the same node: same index, same stage shape.
pub open spec fn same_node(a: NodeReflection, b: NodeReflection) -> bool {
    a.id == b.id && same_shape(*a.shape, *b.shape)
}

impl NodeId {
    /// The type-erased identity of this node.
    pub open spec fn reflection_spec(&self) -> NodeReflection {
        NodeReflection { id: self.id, shape: self.shape }
    }

    pub fn stage_shape(&self) -> (r: &'static StageShape)
        ensures
            r == self.shape,
    {
        self.shape
    }

    /// The type-erased identity of this node.
    pub fn reflection(&self) -> (r: NodeReflection)
        ensures
            r == self.reflection_spec(),
    {
        NodeReflection { id: self.id, shape: self.shape }
    }

    /// The index of this node in its registry.
    pub fn index(&self) -> (r: usize)
        ensures
            r == self.id,
    {
        self.id
    }
}

/// A [Registry] stores each node, its state, and the logical [Stage]
/// associated with it. Slots are never removed, so an index once handed out
/// keeps naming the same slot; an unregistered node leaves its slot empty.
pub struct Registry<S: Stage> {
    nodes: Vec<Option<Node<S>>>,
}

impl<S: Stage> Registry<S> {
    /// The slots of the registry, by node index.
    pub closed spec fn slots(&self) -> Seq<Option<Node<S>>> {
        self.nodes@
    }

    /// Slot `id` holds a node.
    pub open spec fn holds(&self, id: int) -> bool {
        0 <= id < self.slots().len() && self.slots()[id] is Some
    }

    /// The node in slot `id`.
    pub open spec fn node(&self, id: int) -> Node<S> {
        self.slots()[id].unwrap()
    }

    /// Every node that the registry holds is well formed.
    pub open spec fn wf(&self) -> bool {
        forall|i: int| #[trigger] self.holds(i) ==> self.node(i).wf()
    }

    /// Both registries have the same slots, full in the same places, with
    /// nodes of the same stages.
    pub open spec fn same_layout(&self, other: &Self) -> bool {
        &&& self.slots().len() == other.slots().len()
        &&& forall|i: int| #[trigger] self.holds(i) == other.holds(i)
        &&& forall|i: int| #[trigger] self.holds(i) ==> self.node(i).same_frame(&other.node(i))
    }

    /// Slot `id` holds a node of the stage that `shape` describes.
    pub open spec fn holds_shape(&self, id: int, shape: StageShape) -> bool {
        self.holds(id) && same_shape(*self.node(id).shape, shape)
    }

    pub fn new() -> (r: Self)
        ensures
            r.slots().len() == 0,
            r.wf(),
    {
        Registry { nodes: Vec::new() }
    }

    /// The number of slots, full or empty.
    pub fn len(&self) -> (r: usize)
        ensures
            r == self.slots().len(),
    {
        self.nodes.len()
    }

    /// Adds a node to the registry and returns its identifier, the index of
    /// a new slot after all others.
    pub fn register_with_state(&mut self, stage: S, state: S::State) -> (r: NodeId)
        requires
            old(self).wf(),
        ensures
            final(self).wf(),
            r.id == old(self).slots().len(),
            final(self).slots().len() == old(self).slots().len() + 1,
            final(self).slots().take(old(self).slots().len() as int) == old(self).slots(),
            final(self).holds(r.id as int),
            final(self).node(r.id as int).stage == stage,
            final(self).node(r.id as int).state == state,
            final(self).node(r.id as int).shape == r.shape,
            call_ensures(S::shape, (&stage,), r.shape),
            call_ensures(S::eval_strategy, (&stage,), final(self).node(r.id as int).eval_strategy),
            call_ensures(S::reeval_rule, (&stage,), final(self).node(r.id as int).reeval_rule),
            final(self).node(r.id as int).input_changed,
            final(self).node(r.id as int).cache@.len() == 0,
            forall|i: int| 0 <= i < final(self).node(r.id as int).inputs@.len()
                ==> (#[trigger] final(self).node(r.id as int).inputs@[i]) is None,
            final(self).node(r.id as int).outputs@.len() == r.shape.outputs@.len(),
            forall|i: int| 0 <= i < final(self).node(r.id as int).outputs@.len()
                ==> (#[trigger] final(self).node(r.id as int).outputs@[i]) is None,
    {
        let next = self.nodes.len();
        let node = Node::new(stage, state);
        let shape = node.shape;
        let ghost before = self.nodes@;
        self.nodes.push(Some(node));
        proof {
            assert(self.nodes@.take(before.len() as int) =~= before);
            assert forall|i: int| #[trigger] self.holds(i) implies self.node(i).wf() by {
                if i < before.len() {
                    assert(self.nodes@[i] == before[i]);
                    assert(old(self).holds(i));
                }
            }
        }
        NodeId { id: next, shape }
    }

    /// Adds a node with the default state: one that `default` of the
    /// state's type returns.
    pub fn register(&mut self, stage: S) -> (r: NodeId)
        where
            S::State: Default,
        requires
            old(self).wf(),
        ensures
            final(self).wf(),
            r.id == old(self).slots().len(),
            final(self).slots().len() == old(self).slots().len() + 1,
            final(self).slots().take(old(self).slots().len() as int) == old(self).slots(),
            final(self).holds(r.id as int),
            final(self).node(r.id as int).stage == stage,
            call_ensures(S::State::default, (), final(self).node(r.id as int).state),
            final(self).node(r.id as int).shape == r.shape,
            call_ensures(S::shape, (&stage,), r.shape),
            call_ensures(S::eval_strategy, (&stage,), final(self).node(r.id as int).eval_strategy),
            call_ensures(S::reeval_rule, (&stage,), final(self).node(r.id as int).reeval_rule),
            final(self).node(r.id as int).input_changed,
            final(self).node(r.id as int).cache@.len() == 0,
            forall|i: int| 0 <= i < final(self).node(r.id as int).inputs@.len()
                ==> (#[trigger] final(self).node(r.id as int).inputs@[i]) is None,
            final(self).node(r.id as int).outputs@.len() == r.shape.outputs@.len(),
            forall|i: int| 0 <= i < final(self).node(r.id as int).outputs@.len()
                ==> (#[trigger] final(self).node(r.id as int).outputs@[i]) is None,
    {
        let state = S::State::default();
        self.register_with_state(stage, state)
    }

    /// Returns an error unless the registry holds a node of the stage
    /// `expected` at `id`.
    pub fn validate_node_type(&self, id: NodeReflection, expected: &'static StageShape) -> (r: Result<(), RegistryError>)
        ensures
            !self.holds(id.id as int) ==> (r matches Err(RegistryError::NodesNotFoundInRegistry(e)) && e.0@ == seq![id]),
            self.holds(id.id as int) && !self.holds_shape(id.id as int, *expected) ==> r == Err::<(), RegistryError>(
                RegistryError::NodeTypeMismatch(NodeTypeMismatchError {
                    got: expected.stage_name,
                    expected: self.node(id.id as int).shape.stage_name,
                })),
            self.holds_shape(id.id as int, *expected) ==> r is Ok,
    {
        if id.id < self.nodes.len() {
            match &self.nodes[id.id] {
                Some(node) => {
                    if shape_eq(node.shape, expected) {
                        Ok(())
                    } else {
                        Err(RegistryError::NodeTypeMismatch(NodeTypeMismatchError {
                            got: expected.stage_name,
                            expected: node.shape.stage_name,
                        }))
                    }
                },
                None => Err(RegistryError::NodesNotFoundInRegistry(NodesNotFoundError::single(id))),
            }
        } else {
            Err(RegistryError::NodesNotFoundInRegistry(NodesNotFoundError::single(id)))
        }
    }

    /// Removes a node from the registry and returns it; an error, with the
    /// registry unchanged, unless the node at `id` is of the stage `expected`.
    pub fn unregister(&mut self, id: NodeReflection, expected: &'static StageShape) -> (r: Result<Option<Node<S>>, RegistryError>)
        requires
            old(self).wf(),
        ensures
            final(self).wf(),
            !old(self).holds(id.id as int) ==> (*final(self) == *old(self)
                && (r matches Err(RegistryError::NodesNotFoundInRegistry(e)) && e.0@ == seq![id])),
            old(self).holds(id.id as int) && !old(self).holds_shape(id.id as int, *expected) ==> {
                &&& *final(self) == *old(self)
                &&& r == Err::<Option<Node<S>>, RegistryError>(RegistryError::NodeTypeMismatch(NodeTypeMismatchError {
                    got: expected.stage_name,
                    expected: old(self).node(id.id as int).shape.stage_name,
                }))
            },
            old(self).holds_shape(id.id as int, *expected) ==> {
                &&& r == Ok::<Option<Node<S>>, RegistryError>(Some(old(self).node(id.id as int)))
                &&& final(self).slots() == old(self).slots().update(id.id as int, None)
            },
    {
        self.validate_node_type(id, expected)?;
        let taken = self.nodes[id.id].take();
        proof {
            assert forall|i: int| #[trigger] self.holds(i) implies self.node(i).wf() by {
                assert(old(self).holds(i));
            }
        }
        Ok(taken)
    }

    /// Removes a node from the registry and drops it. An error when `id` is
    /// past every slot; an empty slot stays empty.
    pub fn unregister_and_drop(&mut self, id: NodeReflection) -> (r: Result<(), RegistryError>)
        requires
            old(self).wf(),
        ensures
            final(self).wf(),
            id.id < old(self).slots().len() ==> r is Ok
                && final(self).slots() == old(self).slots().update(id.id as int, None),
            id.id >= old(self).slots().len() ==> (*final(self) == *old(self)
                && (r matches Err(RegistryError::NodesNotFoundInRegistry(e)) && e.0@ == seq![id])),
    {
        if id.id < self.nodes.len() {
            let _dropped = self.nodes[id.id].take();
            proof {
                assert forall|i: int| #[trigger] self.holds(i) implies self.node(i).wf() by {
                    assert(old(self).holds(i));
                }
            }
            Ok(())
        } else {
            Err(RegistryError::NodesNotFoundInRegistry(NodesNotFoundError::single(id)))
        }
    }

    /// The node at `id`, when it is of `id`'s stage.
    pub fn get_node(&self, id: NodeId) -> (r: Option<&Node<S>>)
        ensures
            self.holds_shape(id.id as int, *id.shape) ==> r == Some(&self.node(id.id as int)),
            !self.holds_shape(id.id as int, *id.shape) ==> r is None,
    {
        if id.id < self.nodes.len() {
            match &self.nodes[id.id] {
                Some(node) => {
                    if shape_eq(node.shape, id.shape) {
                        Some(node)
                    } else {
                        None
                    }
                },
                None => None,
            }
        } else {
            None
        }
    }

    /// The node at `id`, whatever its stage.
    pub fn get_node_any(&self, id: NodeReflection) -> (r: Option<&Node<S>>)
        ensures
            self.holds(id.id as int) ==> r == Some(&self.node(id.id as int)),
            !self.holds(id.id as int) ==> r is None,
    {
        if id.id < self.nodes.len() {
            match &self.nodes[id.id] {
                Some(node) => Some(node),
                None => None,
            }
        } else {
            None
        }
    }

    /// The node at `id`, whatever its stage, for changing it.
    pub fn get_node_any_mut(&mut self, id: NodeReflection) -> (r: Option<&mut Node<S>>)
        ensures
            !old(self).holds(id.id as int) ==> r is None && final(self).slots() == old(self).slots(),
            old(self).holds(id.id as int) ==> r is Some && *r.unwrap() == old(self).node(id.id as int)
                && final(self).slots() == old(self).slots().update(id.id as int, Some(*final(r.unwrap()))),
    {
        if id.id < self.nodes.len() {
            let slot = &mut self.nodes[id.id];
            slot.as_mut()
        } else {
            None
        }
    }

    /// The node at `id`, when it is of `id`'s stage, for changing it.
    pub fn get_node_mut(&mut self, id: NodeId) -> (r: Option<&mut Node<S>>)
        ensures
            !old(self).holds_shape(id.id as int, *id.shape) ==> r is None
                && final(self).slots() == old(self).slots(),
            old(self).holds_shape(id.id as int, *id.shape) ==> r is Some
                && *r.unwrap() == old(self).node(id.id as int)
                && final(self).slots() == old(self).slots().update(id.id as int, Some(*final(r.unwrap()))),
    {
        if id.id < self.nodes.len() {
            match &self.nodes[id.id] {
                Some(node) => {
                    if !shape_eq(node.shape, id.shape) {
                        return None;
                    }
                },
                None => {
                    return None;
                },
            }
            let slot = &mut self.nodes[id.id];
            slot.as_mut()
        } else {
            None
        }
    }

    /// Gets a reference to the state of a specific node.
    pub fn state(&self, id: NodeId) -> (r: Result<&S::State, RegistryError>)
        ensures
            !self.holds(id.id as int) ==> (r matches Err(RegistryError::NodesNotFoundInRegistry(e)) && e.0@ == seq![id.reflection_spec()]),
            self.holds(id.id as int) && !self.holds_shape(id.id as int, *id.shape) ==> r == Err::<&S::State, RegistryError>(
                RegistryError::NodeTypeMismatch(NodeTypeMismatchError {
                    got: id.shape.stage_name,
                    expected: self.node(id.id as int).shape.stage_name,
                })),
            self.holds_shape(id.id as int, *id.shape) ==> r == Ok::<&S::State, RegistryError>(&self.node(id.id as int).state),
    {
        self.validate_node_type(id.reflection(), id.shape)?;
        match &self.nodes[id.id] {
            Some(node) => Ok(&node.state),
            None => Err(RegistryError::NodesNotFoundInRegistry(NodesNotFoundError::single(id.reflection()))),
        }
    }

    /// Gets a mutable reference to the state of a specific node.
    pub fn state_mut(&mut self, id: NodeId) -> (r: Result<&mut S::State, RegistryError>)
        ensures
            !old(self).holds(id.id as int) ==> final(self).slots() == old(self).slots()
                && (r matches Err(RegistryError::NodesNotFoundInRegistry(e)) && e.0@ == seq![id.reflection_spec()]),
            old(self).holds(id.id as int) && !old(self).holds_shape(id.id as int, *id.shape) ==> {
                &&& final(self).slots() == old(self).slots()
                &&& r matches Err(RegistryError::NodeTypeMismatch(e)) && e == NodeTypeMismatchError {
                    got: id.shape.stage_name,
                    expected: old(self).node(id.id as int).shape.stage_name,
                }
            },
            old(self).holds_shape(id.id as int, *id.shape) ==> {
                &&& r is Ok
                &&& *r.unwrap() == old(self).node(id.id as int).state
                &&& final(self).slots() == old(self).slots().update(id.id as int,
                    Some(Node { state: *final(r.unwrap()), ..old(self).node(id.id as int) }))
            },
    {
        self.validate_node_type(id.reflection(), id.shape)?;
        let node = self.get_node_any_mut(id.reflection());
        match node {
            Some(node) => Ok(&mut node.state),
            None => Err(RegistryError::NodesNotFoundInRegistry(NodesNotFoundError::single(id.reflection()))),
        }
    }

    /// Gets a reference to the inputs of a node.
    pub fn get_inputs(&self, node_id: NodeId) -> (r: Option<&Vec<Option<(S::Value, crate::stage::ReevaluationRule)>>>)
        ensures
            self.holds_shape(node_id.id as int, *node_id.shape) ==> r == Some(&self.node(node_id.id as int).inputs),
            !self.holds_shape(node_id.id as int, *node_id.shape) ==> r is None,
    {
        match self.get_node(node_id) {
            Some(node) => Some(&node.inputs),
            None => None,
        }
    }

    /// Gets a reference to the outputs of a node.
    pub fn get_outputs(&self, node_id: NodeId) -> (r: Option<&Vec<Option<S::Value>>>)
        ensures
            self.holds_shape(node_id.id as int, *node_id.shape) ==> r == Some(&self.node(node_id.id as int).outputs),
            !self.holds_shape(node_id.id as int, *node_id.shape) ==> r is None,
    {
        match self.get_node(node_id) {
            Some(node) => Some(&node.outputs),
            None => None,
        }
    }

    /// Gets a mutable reference to the inputs of a node.
    pub fn get_inputs_mut(&mut self, node_id: NodeId) -> (r: Option<&mut Vec<Option<(S::Value, crate::stage::ReevaluationRule)>>>)
        ensures
            !old(self).holds_shape(node_id.id as int, *node_id.shape) ==> r is None
                && final(self).slots() == old(self).slots(),
            old(self).holds_shape(node_id.id as int, *node_id.shape) ==> r is Some
                && *r.unwrap() == old(self).node(node_id.id as int).inputs
                && final(self).slots() == old(self).slots().update(node_id.id as int,
                    Some(Node { inputs: *final(r.unwrap()), ..old(self).node(node_id.id as int) })),
    {
        match self.get_node_mut(node_id) {
            Some(node) => Some(&mut node.inputs),
            None => None,
        }
    }

    /// Gets a mutable reference to the outputs of a node.
    pub fn get_outputs_mut(&mut self, node_id: NodeId) -> (r: Option<&mut Vec<Option<S::Value>>>)
        ensures
            !old(self).holds_shape(node_id.id as int, *node_id.shape) ==> r is None
                && final(self).slots() == old(self).slots(),
            old(self).holds_shape(node_id.id as int, *node_id.shape) ==> r is Some
                && *r.unwrap() == old(self).node(node_id.id as int).outputs
                && final(self).slots() == old(self).slots().update(node_id.id as int,
                    Some(Node { outputs: *final(r.unwrap()), ..old(self).node(node_id.id as int) })),
    {
        match self.get_node_mut(node_id) {
            Some(node) => Some(&mut node.outputs),
            None => None,
        }
    }

    /// Takes a node out of the registry, gaining ownership of it. This does
    /// not unregister the node: [`Self::replace_node`] puts it back. `None`
    /// when the node is already taken or never existed.
    pub fn take_node(&mut self, id: NodeReflection) -> (r: Option<Node<S>>)
        ensures
            id.id >= old(self).slots().len() ==> r is None && final(self).slots() == old(self).slots(),
            id.id < old(self).slots().len() ==> r == old(self).slots()[id.id as int]
                && final(self).slots() == old(self).slots().update(id.id as int, None),
    {
        if id.id < self.nodes.len() {
            self.nodes[id.id].take()
        } else {
            None
        }
    }

    /// Inserts a node with the given ID back into the registry. The slot
    /// must exist.
    pub fn replace_node(&mut self, id: NodeReflection, node: Node<S>)
        requires
            id.id < old(self).slots().len(),
        ensures
            final(self).slots() == old(self).slots().update(id.id as int, Some(node)),
    {
        self.nodes.set(id.id, Some(node));
    }

    /// Gets two nodes for changing them together, as a parent and a child
    /// node often are: the node at `id1` first, then the node at `id0`. When
    /// either is missing, the error lists exactly the missing ids, `id0`
    /// before `id1`, and the registry is unchanged. The two ids must differ.
    pub fn get2_nodes_any_mut(&mut self, id0: NodeReflection, id1: NodeReflection) -> (r: Result<(&mut Node<S>, &mut Node<S>), NodesNotFoundError>)
        requires
            id0.id != id1.id,
        ensures
            ({
                let miss0 = !old(self).holds(id0.id as int);
                let miss1 = !old(self).holds(id1.id as int);
                if miss0 && miss1 {
                    (r matches Err(e) && e.0@ == seq![id0, id1]) && final(self).slots() == old(self).slots()
                } else if miss0 {
                    (r matches Err(e) && e.0@ == seq![id0]) && final(self).slots() == old(self).slots()
                } else if miss1 {
                    (r matches Err(e) && e.0@ == seq![id1]) && final(self).slots() == old(self).slots()
                } else {
                    &&& r is Ok
                    &&& *r.unwrap().0 == old(self).node(id1.id as int)
                    &&& *r.unwrap().1 == old(self).node(id0.id as int)
                    &&& final(self).slots() == old(self).slots()
                        .update(id1.id as int, Some(*final(r.unwrap().0)))
                        .update(id0.id as int, Some(*final(r.unwrap().1)))
                }
            }),
    {
        let n = self.nodes.len();
        let miss0 = id0.id >= n || self.nodes[id0.id].is_none();
        let miss1 = id1.id >= n || self.nodes[id1.id].is_none();
        if miss0 && miss1 {
            return Err(NodesNotFoundError::pair(id0, id1));
        } else if miss0 {
            return Err(NodesNotFoundError::single(id0));
        } else if miss1 {
            return Err(NodesNotFoundError::single(id1));
        }
        let lo = if id0.id < id1.id { id0.id } else { id1.id };
        let hi = if id0.id < id1.id { id1.id } else { id0.id };
        let slice = self.nodes.as_mut_slice();
        let (left, right) = slice.split_at_mut(hi);
        let (_below, middle) = left.split_at_mut(lo);
        let lo_slot = middle.first_mut().unwrap();
        let hi_slot = right.first_mut().unwrap();
        let lo_node = lo_slot.as_mut().unwrap();
        let hi_node = hi_slot.as_mut().unwrap();
        if lo == id1.id {
            Ok((lo_node, hi_node))
        } else {
            Ok((hi_node, lo_node))
        }
    }

    /// Gets a node by its ID.
    pub fn get_node_by_id(&self, id: NodeReflection) -> (r: Option<&Node<S>>)
        ensures
            self.holds(id.id as int) ==> r == Some(&self.node(id.id as int)),
            !self.holds(id.id as int) ==> r is None,
    {
        self.get_node_any(id)
    }
}

/// Whether two reflections name the same node.
pub fn same_node_exec(a: &NodeReflection, b: &NodeReflection) -> (r: bool)
    ensures
        r == same_node(*a, *b),
{
    a.id == b.id && shape_eq(a.shape, b.shape)
}

} // verus!
