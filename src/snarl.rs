//! The graph container: nodes and wires held in an `egui_snarl::Snarl`,
//! seen through two names for its contents.

use crate::node::GraphNode;
use egui_snarl::Snarl;
use vstd::prelude::*;

verus! {

/// Stable identifier of a node in a graph.
#[derive(Debug, Clone, Copy, PartialEq, Eq, Hash, Structural)]
pub struct NodeId(pub usize);

/// An output port: node and output index.
#[derive(Debug, Clone, Copy, PartialEq, Eq, Hash, Structural)]
pub struct OutPinId {
    pub node: NodeId,
    pub output: usize,
}

/// An input port: node and input index.
#[derive(Debug, Clone, Copy, PartialEq, Eq, Hash, Structural)]
pub struct InPinId {
    pub node: NodeId,
    pub input: usize,
}

#[verifier::external_type_specification]
#[verifier::external_body]
#[verifier::reject_recursive_types(T)]
pub struct ExSnarl<T>(Snarl<T>);

/// The nodes that a snarl holds, by node index.
pub uninterp spec fn snarl_nodes(s: Snarl<GraphNode>) -> Map<usize, GraphNode>;

/// The wires that a snarl holds, each from an output to an input.
pub uninterp spec fn snarl_wires(s: Snarl<GraphNode>) -> Set<(OutPinId, InPinId)>;

pub open spec fn no_nodes() -> Map<usize, GraphNode> {
    Map::empty()
}

pub open spec fn no_wires() -> Set<(OutPinId, InPinId)> {
    Set::empty()
}

/// The sources wired into an input.
pub open spec fn sources_of(wires: Set<(OutPinId, InPinId)>, pin: InPinId) -> Set<OutPinId> {
    Set::new(|o: OutPinId| wires.contains((o, pin)))
}

/// The wires that do not end at the input.
pub open spec fn wires_not_into(wires: Set<(OutPinId, InPinId)>, pin: InPinId) -> Set<(OutPinId, InPinId)> {
    wires.filter(|w: (OutPinId, InPinId)| w.1 != pin)
}

/// Relies on `Snarl::new`: a snarl without nodes or wires.
#[verifier::external_body]
pub(crate) fn snarl_new() -> (r: Snarl<GraphNode>)
    ensures
        snarl_nodes(r) == no_nodes(),
        snarl_wires(r) == no_wires(),
{
    Snarl::new()
}

/// Relies on `Snarl::insert_node`: the node is stored under a fresh index
/// (the slab's vacant key) and the wires stay.
#[verifier::external_body]
pub(crate) fn snarl_insert(s: &mut Snarl<GraphNode>, node: GraphNode) -> (r: NodeId)
    ensures
        !snarl_nodes(*old(s)).contains_key(r.0),
        snarl_nodes(*final(s)) == snarl_nodes(*old(s)).insert(r.0, node),
        snarl_wires(*final(s)) == snarl_wires(*old(s)),
{
    NodeId(s.insert_node(Default::default(), node).0)
}

/// Relies on `IndexMut<NodeId> for Snarl`: replaces the node at an
/// existing index (it panics on a missing one).
#[verifier::external_body]
pub(crate) fn snarl_replace(s: &mut Snarl<GraphNode>, id: NodeId, node: GraphNode)
    requires
        snarl_nodes(*old(s)).contains_key(id.0),
    ensures
        snarl_nodes(*final(s)) == snarl_nodes(*old(s)).insert(id.0, node),
        snarl_wires(*final(s)) == snarl_wires(*old(s)),
{
    s[egui_snarl::NodeId(id.0)] = node;
}

/// Relies on `Snarl::get_node`: the node at an index, if any.
#[verifier::external_body]
pub(crate) fn snarl_get(s: &Snarl<GraphNode>, id: NodeId) -> (r: Option<&GraphNode>)
    ensures
        snarl_nodes(*s).contains_key(id.0) ==> r == Some(&snarl_nodes(*s)[id.0]),
        !snarl_nodes(*s).contains_key(id.0) ==> r is None,
{
    s.get_node(egui_snarl::NodeId(id.0))
}

/// Relies on `Snarl::connect`: adds the wire (a set: an existing wire is
/// kept once) and tells whether it was new. It panics unless both nodes
/// exist.
#[verifier::external_body]
pub(crate) fn snarl_connect(s: &mut Snarl<GraphNode>, from: OutPinId, to: InPinId) -> (r: bool)
    requires
        snarl_nodes(*old(s)).contains_key(from.node.0),
        snarl_nodes(*old(s)).contains_key(to.node.0),
    ensures
        snarl_wires(*final(s)) == snarl_wires(*old(s)).insert((from, to)),
        snarl_nodes(*final(s)) == snarl_nodes(*old(s)),
        r == !snarl_wires(*old(s)).contains((from, to)),
{
    s.connect(
        egui_snarl::OutPinId { node: egui_snarl::NodeId(from.node.0), output: from.output },
        egui_snarl::InPinId { node: egui_snarl::NodeId(to.node.0), input: to.input },
    )
}

/// Relies on `Snarl::disconnect`: removes the wire and tells whether it
/// was there. It panics unless both nodes exist.
#[verifier::external_body]
pub(crate) fn snarl_disconnect(s: &mut Snarl<GraphNode>, from: OutPinId, to: InPinId) -> (r: bool)
    requires
        snarl_nodes(*old(s)).contains_key(from.node.0),
        snarl_nodes(*old(s)).contains_key(to.node.0),
    ensures
        snarl_wires(*final(s)) == snarl_wires(*old(s)).remove((from, to)),
        snarl_nodes(*final(s)) == snarl_nodes(*old(s)),
        r == snarl_wires(*old(s)).contains((from, to)),
{
    s.disconnect(
        egui_snarl::OutPinId { node: egui_snarl::NodeId(from.node.0), output: from.output },
        egui_snarl::InPinId { node: egui_snarl::NodeId(to.node.0), input: to.input },
    )
}

/// Relies on `Snarl::drop_inputs`: removes every wire into the input. It
/// panics unless the node exists.
#[verifier::external_body]
pub(crate) fn snarl_drop_inputs(s: &mut Snarl<GraphNode>, pin: InPinId)
    requires
        snarl_nodes(*old(s)).contains_key(pin.node.0),
    ensures
        snarl_wires(*final(s)) == wires_not_into(snarl_wires(*old(s)), pin),
        snarl_nodes(*final(s)) == snarl_nodes(*old(s)),
{
    s.drop_inputs(egui_snarl::InPinId { node: egui_snarl::NodeId(pin.node.0), input: pin.input });
}

/// Relies on `Snarl::wires`: every wire once, in no stated order.
#[verifier::external_body]
pub(crate) fn snarl_wire_list(s: &Snarl<GraphNode>) -> (r: Vec<(OutPinId, InPinId)>)
    ensures
        r@.to_set() == snarl_wires(*s),
        r@.no_duplicates(),
{
    let mut out = Vec::new();
    for (o, i) in s.wires() {
        out.push((
            OutPinId { node: NodeId(o.node.0), output: o.output },
            InPinId { node: NodeId(i.node.0), input: i.input },
        ));
    }
    out
}

/// Relies on `Snarl::in_pin`: the outputs wired into the input, each once.
#[verifier::external_body]
pub(crate) fn snarl_remotes(s: &Snarl<GraphNode>, pin: InPinId) -> (r: Vec<OutPinId>)
    ensures
        r@.to_set() == sources_of(snarl_wires(*s), pin),
        r@.no_duplicates(),
{
    let mut out = Vec::new();
    for o in s.in_pin(egui_snarl::InPinId { node: egui_snarl::NodeId(pin.node.0), input: pin.input }).remotes {
        out.push(OutPinId { node: NodeId(o.node.0), output: o.output });
    }
    out
}

/// Relies on `Snarl::node_ids`: every node index once, in no stated order.
#[verifier::external_body]
pub(crate) fn snarl_node_ids(s: &Snarl<GraphNode>) -> (r: Vec<NodeId>)
    ensures
        r@.map_values(|n: NodeId| n.0).to_set() == snarl_nodes(*s).dom(),
        r@.no_duplicates(),
{
    let mut out = Vec::new();
    for (id, _) in s.node_ids() {
        out.push(NodeId(id.0));
    }
    out
}

} // verus!
