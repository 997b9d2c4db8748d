//! The node abstraction: a closed set of node kinds with typed ports.

use crate::defaults::{default_of, result_models};
use crate::registry::{list_type_of, ETypesRegistry, RegistryError};
use crate::snarl::{InPinId, NodeId, OutPinId};
use crate::types::{type_eq, view_value, EDataType, EListId, ETypeConst, EValue, VModel};
use vstd::prelude::*;

verus! {

/// The type of a port: a concrete type, or whatever the connected source
/// provides.
#[derive(Debug, Clone)]
pub enum NodePortType {
    Specific(EDataType),
    BasedOnSource,
}

/// Builds a list out of its inputs. It has one input per item plus a free
/// one that takes the next connection; the item type is taken from the
/// first connection unless it was fixed at creation.
#[derive(Debug, Clone)]
pub struct ListNode {
    item: EDataType,
    fixed: bool,
    items_count: usize,
}

/// The node kinds of a graph.
#[derive(Debug, Clone)]
pub enum GraphNode {
    List(ListNode),
    /// Passes its single input through to its single output.
    Reroute { ty: EDataType },
    /// Consumes its input for an effect outside the graph; it must run
    /// even when nothing reads it.
    Saving { ty: EDataType },
}

/// Failures of graph evaluation and editing, each with the node or port
/// it concerns.
#[derive(Debug, Clone)]
pub enum GraphError {
    UnknownNode(NodeId),
    InputOutOfBounds { node: NodeId, index: usize, count: usize },
    OutputOutOfBounds { node: NodeId, index: usize, count: usize },
    MultipleSources(InPinId),
    CyclicDependency(NodeId),
    /// A node was not cached right after it was evaluated: a defect.
    MissingCacheAfterEvaluation(NodeId),
    /// The connected output's type does not fit the input.
    IncompatibleTypes(InPinId),
    /// The default value of an unconnected input could not be built.
    Registry(InPinId, RegistryError),
    /// The list type of a list node's items is not in the registry.
    UnregisteredList(NodeId),
}

impl ListNode {
    /// An empty list node whose item type follows its first connection.
    pub fn new() -> (r: ListNode)
        ensures
            r.item() == (EDataType::Const { value: ETypeConst::Null }),
            !r.fixed(),
            r.items_count() == 0,
    {
        ListNode { item: EDataType::Const { value: ETypeConst::Null }, fixed: false, items_count: 0 }
    }

    /// An empty list node of a fixed item type.
    pub fn of_type(ty: EDataType) -> (r: ListNode)
        ensures
            r.item() == ty,
            r.fixed(),
            r.items_count() == 0,
    {
        ListNode { item: ty, fixed: true, items_count: 0 }
    }

    pub closed spec fn item(&self) -> EDataType {
        self.item
    }

    pub closed spec fn fixed(&self) -> bool {
        self.fixed
    }

    pub closed spec fn items_count(&self) -> nat {
        self.items_count as nat
    }

    /// The node with another item type and item count.
    pub fn with_state(&self, item: EDataType, items_count: usize) -> (r: ListNode)
        ensures
            r.item() == item,
            r.fixed() == self.fixed(),
            r.items_count() == items_count,
    {
        ListNode { item, fixed: self.fixed, items_count }
    }

    /// The item type.
    pub fn item_type(&self) -> (r: &EDataType)
        ensures
            *r == self.item(),
    {
        &self.item
    }

    /// The node with another item count.
    pub fn with_count(&self, items_count: usize) -> (r: ListNode)
        ensures
            r.item() == self.item(),
            r.fixed() == self.fixed(),
            r.items_count() == items_count,
    {
        ListNode { item: self.item.duplicate(), fixed: self.fixed, items_count }
    }

    /// The number of connected items.
    pub fn count(&self) -> (r: usize)
        ensures
            r == self.items_count(),
    {
        self.items_count
    }
}

/// A node's state admits its port counts.
pub open spec fn node_wf(n: GraphNode) -> bool {
    match n {
        GraphNode::List(l) => l.items_count() < usize::MAX,
        _ => true,
    }
}

pub open spec fn inputs_count(n: GraphNode) -> nat {
    match n {
        GraphNode::List(l) => l.items_count() + 1,
        GraphNode::Reroute { .. } => 1,
        GraphNode::Saving { .. } => 1,
    }
}

pub open spec fn outputs_count(n: GraphNode) -> nat {
    match n {
        GraphNode::List(_) => 1,
        GraphNode::Reroute { .. } => 1,
        GraphNode::Saving { .. } => 0,
    }
}

pub open spec fn input_port(n: GraphNode) -> NodePortType {
    match n {
        GraphNode::List(l) => if l.items_count() == 0 && !l.fixed() {
            NodePortType::BasedOnSource
        } else {
            NodePortType::Specific(l.item())
        },
        GraphNode::Reroute { ty } => NodePortType::Specific(ty),
        GraphNode::Saving { ty } => NodePortType::Specific(ty),
    }
}

pub open spec fn side_effects(n: GraphNode) -> bool {
    n is Saving
}

/// Unconnected inputs of the node may hold inline values.
pub open spec fn inline_values_allowed(n: GraphNode) -> bool {
    !(n is List)
}

/// What a node's evaluation yields from its inputs; `list` is the list
/// type that the registry holds for a list node's items.
pub open spec fn execute_spec(n: GraphNode, inputs: Seq<VModel>, list: EListId) -> Seq<VModel> {
    match n {
        GraphNode::List(l) => seq![VModel::List(list.0, inputs.take(l.items_count() as int))],
        GraphNode::Reroute { .. } => seq![inputs[0]],
        GraphNode::Saving { .. } => Seq::empty(),
    }
}

/// The type of the node's outputs: for a list node the registry's list
/// type of its items, when registered.
pub open spec fn output_type(reg: ETypesRegistry, n: GraphNode) -> Option<EDataType> {
    match n {
        GraphNode::List(l) => match list_type_of(reg, l.item()) {
            Some(k) => Some(EDataType::List { id: EListId(k as usize) }),
            None => None,
        },
        GraphNode::Reroute { ty } => Some(ty),
        GraphNode::Saving { ty } => Some(ty),
    }
}

/// The node can be executed with this registry: a list node's list type
/// is registered.
pub open spec fn node_runs(reg: ETypesRegistry, n: GraphNode) -> bool {
    n is List ==> list_type_of(reg, n->List_0.item()) is Some
}

impl GraphNode {
    /// A copy of the node.
    pub fn duplicate(&self) -> (r: GraphNode)
        ensures
            r == *self,
    {
        match self {
            GraphNode::List(l) => GraphNode::List(ListNode { item: l.item.duplicate(), fixed: l.fixed, items_count: l.items_count }),
            GraphNode::Reroute { ty } => GraphNode::Reroute { ty: ty.duplicate() },
            GraphNode::Saving { ty } => GraphNode::Saving { ty: ty.duplicate() },
        }
    }

    /// The identifier of the node's kind.
    pub fn id(&self) -> (r: String)
        ensures
            self is List ==> r@ == "list"@,
            self is Reroute ==> r@ == "reroute"@,
            self is Saving ==> r@ == "saving"@,
    {
        match self {
            GraphNode::List(_) => String::from_str("list"),
            GraphNode::Reroute { .. } => String::from_str("reroute"),
            GraphNode::Saving { .. } => String::from_str("saving"),
        }
    }

    pub fn inputs_count(&self) -> (r: usize)
        requires
            node_wf(*self),
        ensures
            r == inputs_count(*self),
    {
        match self {
            GraphNode::List(l) => l.items_count + 1,
            _ => 1,
        }
    }

    pub fn outputs_count(&self) -> (r: usize)
        ensures
            r == outputs_count(*self),
    {
        match self {
            GraphNode::Saving { .. } => 0,
            _ => 1,
        }
    }

    pub fn has_side_effects(&self) -> (r: bool)
        ensures
            r == side_effects(*self),
    {
        matches!(self, GraphNode::Saving { .. })
    }

    pub fn has_inline_values(&self) -> (r: bool)
        ensures
            r == inline_values_allowed(*self),
    {
        !matches!(self, GraphNode::List(_))
    }

    /// The type of an input port, bounds-checked.
    pub fn try_input(&self, id: NodeId, input: usize) -> (r: Result<NodePortType, GraphError>)
        requires
            node_wf(*self),
        ensures
            input < inputs_count(*self) ==> r == Ok::<NodePortType, GraphError>(input_port(*self)),
            input >= inputs_count(*self) ==> r == Err::<NodePortType, GraphError>(
                GraphError::InputOutOfBounds { node: id, index: input, count: inputs_count(*self) as usize },
            ),
    {
        let count = self.inputs_count();
        if input >= count {
            return Err(GraphError::InputOutOfBounds { node: id, index: input, count });
        }
        match self {
            GraphNode::List(l) => if l.items_count == 0 && !l.fixed {
                Ok(NodePortType::BasedOnSource)
            } else {
                Ok(NodePortType::Specific(l.item.duplicate()))
            },
            GraphNode::Reroute { ty } => Ok(NodePortType::Specific(ty.duplicate())),
            GraphNode::Saving { ty } => Ok(NodePortType::Specific(ty.duplicate())),
        }
    }

    /// The type of an output port, bounds-checked. A list node's output is
    /// the registry's list type of its item type.
    pub fn try_output(&self, reg: &ETypesRegistry, id: NodeId, output: usize) -> (r: Result<EDataType, GraphError>)
        ensures
            output >= outputs_count(*self) ==> r == Err::<EDataType, GraphError>(
                GraphError::OutputOutOfBounds { node: id, index: output, count: outputs_count(*self) as usize },
            ),
            output < outputs_count(*self) ==> match output_type(*reg, *self) {
                Some(t) => r == Ok::<EDataType, GraphError>(t),
                None => r == Err::<EDataType, GraphError>(GraphError::UnregisteredList(id)),
            },
    {
        let count = self.outputs_count();
        if output >= count {
            return Err(GraphError::OutputOutOfBounds { node: id, index: output, count });
        }
        match self {
            GraphNode::List(l) => match reg.find_list(&l.item) {
                Some(lid) => Ok(EDataType::List { id: lid }),
                None => Err(GraphError::UnregisteredList(id)),
            },
            GraphNode::Reroute { ty } => Ok(ty.duplicate()),
            GraphNode::Saving { ty } => Ok(ty.duplicate()),
        }
    }
}

/// The value that an unconnected input of the node reads when it holds no
/// inline value: the default of its port type, null for a port typed by
/// its source.
pub open spec fn default_input(reg: ETypesRegistry, n: GraphNode) -> Result<VModel, RegistryError> {
    match input_port(n) {
        NodePortType::Specific(t) => default_of(reg, t),
        NodePortType::BasedOnSource => Ok(VModel::Null),
    }
}

impl GraphNode {
    /// The value of an unconnected input without an inline value.
    pub fn default_input_value(&self, reg: &ETypesRegistry, id: NodeId, input: usize) -> (r: Result<EValue, GraphError>)
        requires
            node_wf(*self),
            input < inputs_count(*self),
        ensures
            match r {
                Ok(v) => default_input(*reg, *self) == Ok::<VModel, RegistryError>(v@),
                Err(e) => e == GraphError::Registry(InPinId { node: id, input }, default_input(*reg, *self)->Err_0)
                    && default_input(*reg, *self) is Err,
            },
    {
        match self.try_input(id, input) {
            Ok(NodePortType::Specific(t)) => match t.default_value(reg) {
                Ok(v) => Ok(v),
                Err(e) => Err(GraphError::Registry(InPinId { node: id, input }, e)),
            },
            Ok(NodePortType::BasedOnSource) => Ok(EValue::Null),
            Err(e) => Err(e),
        }
    }

    /// Evaluates the node on its input values: a list node builds a list
    /// of its connected items, a reroute node passes its input on, a
    /// saving node yields nothing. A list node fails when its list type is
    /// not registered.
    pub fn execute(&self, reg: &ETypesRegistry, id: NodeId, inputs: &Vec<EValue>) -> (r: Result<Vec<EValue>, GraphError>)
        requires
            node_wf(*self),
            inputs@.len() == inputs_count(*self),
        ensures
            r is Ok <==> node_runs(*reg, *self),
            r is Err ==> r == Err::<Vec<EValue>, GraphError>(GraphError::UnregisteredList(id)),
            r matches Ok(out) ==> out@.len() == outputs_count(*self)
                && crate::types::view_values(out@, out@.len()) == execute_spec(
                    *self,
                    crate::types::view_values(inputs@, inputs@.len()),
                    EListId(if self is List { list_type_of(*reg, self->List_0.item())->Some_0 as usize } else { 0 }),
                ),
    {
        proof {
            crate::types::lemma_view_values_index(inputs@, inputs@.len());
        }
        let ghost ins = crate::types::view_values(inputs@, inputs@.len());
        match self {
            GraphNode::List(l) => {
                let lid = match reg.find_list(&l.item) {
                    Some(lid) => lid,
                    None => {
                        return Err(GraphError::UnregisteredList(id));
                    },
                };
                let mut values: Vec<EValue> = Vec::new();
                let mut i: usize = 0;
                while i < l.items_count
                    invariant
                        i <= l.items_count,
                        inputs@.len() == l.items_count + 1,
                        values@.len() == i,
                        ins == crate::types::view_values(inputs@, inputs@.len()),
                        ins.len() == inputs@.len(),
                        forall|q: int| 0 <= q < inputs@.len() ==> #[trigger] ins[q] == inputs@[q]@,
                        forall|q: int| 0 <= q < i ==> (#[trigger] values@[q])@ == ins[q],
                    decreases l.items_count - i,
                {
                    values.push(inputs[i].duplicate());
                    i = i + 1;
                }
                proof {
                    crate::types::lemma_view_values_index(values@, values@.len());
                    assert(crate::types::view_values(values@, values@.len()) =~= ins.take(l.items_count as int));
                }
                let mut out: Vec<EValue> = Vec::new();
                out.push(EValue::List { id: lid, values });
                proof {
                    crate::types::lemma_view_values_index(out@, out@.len());
                    assert(crate::types::view_values(out@, out@.len()) =~= execute_spec(*self, ins, lid));
                }
                Ok(out)
            },
            GraphNode::Reroute { .. } => {
                let mut out: Vec<EValue> = Vec::new();
                out.push(inputs[0].duplicate());
                proof {
                    crate::types::lemma_view_values_index(out@, out@.len());
                    assert(crate::types::view_values(out@, out@.len()) =~= execute_spec(*self, ins, EListId(0)));
                }
                Ok(out)
            },
            GraphNode::Saving { .. } => {
                let out: Vec<EValue> = Vec::new();
                assert(crate::types::view_values(out@, 0) =~= execute_spec(*self, ins, EListId(0)));
                Ok(out)
            },
        }
    }
}

} // verus!
